use vstd::prelude::*;

use crate::ngram::{
    corpus_pairs, documents_view, emissions, emit, lemma_corpus_pairs_empty,
    lemma_corpus_pairs_last, lemma_corpus_pairs_prefix, occurrences_view, NgramMode, Occurrence,
};
use crate::document::Document;
use crate::text::{chars_of, decimal, decimal_chars, text_of};

verus! {

/// What the index holds: for each term, in order of first sight, the
/// documents it was seen in, each with its number of occurrences.
pub type Rows = Seq<(Seq<char>, Seq<(Seq<char>, nat)>)>;

/// `t` has a row.
pub open spec fn has_term(v: Rows, t: Seq<char>) -> bool {
    exists|i: int| 0 <= i < v.len() && v[i].0 == t
}

/// The row of `t`, where it has one.
pub open spec fn term_row(v: Rows, t: Seq<char>) -> int {
    choose|i: int| 0 <= i < v.len() && v[i].0 == t
}

/// `d` is among the documents of a row.
pub open spec fn has_doc(ps: Seq<(Seq<char>, nat)>, d: Seq<char>) -> bool {
    exists|j: int| 0 <= j < ps.len() && ps[j].0 == d
}

/// The place of `d` among the documents of a row, where it is there.
pub open spec fn doc_pos(ps: Seq<(Seq<char>, nat)>, d: Seq<char>) -> int {
    choose|j: int| 0 <= j < ps.len() && ps[j].0 == d
}

/// The number of occurrences of `d` in a row; zero where it is absent.
pub open spec fn doc_count(ps: Seq<(Seq<char>, nat)>, d: Seq<char>) -> nat {
    if has_doc(ps, d) {
        ps[doc_pos(ps, d)].1
    } else {
        0
    }
}

/// How often term `t` was recorded for document `d`.
pub open spec fn count_in(v: Rows, t: Seq<char>, d: Seq<char>) -> nat {
    if has_term(v, t) {
        doc_count(v[term_row(v, t)].1, d)
    } else {
        0
    }
}

/// The sum of the counts of a row.
pub open spec fn sum_counts(ps: Seq<(Seq<char>, nat)>) -> nat
    decreases ps.len(),
{
    if ps.len() == 0 {
        0
    } else {
        sum_counts(ps.drop_last()) + ps.last().1
    }
}

/// How often term `t` was recorded, over all documents.
pub open spec fn term_total(v: Rows, t: Seq<char>) -> nat {
    if has_term(v, t) {
        sum_counts(v[term_row(v, t)].1)
    } else {
        0
    }
}

/// One row is well formed: not empty, each document once, each count positive.
pub open spec fn row_wf(ps: Seq<(Seq<char>, nat)>) -> bool {
    &&& ps.len() > 0
    &&& forall|a: int, b: int| 0 <= a < ps.len() && 0 <= b < ps.len() && ps[a].0 == ps[b].0 ==> a == b
    &&& forall|j: int| 0 <= j < ps.len() ==> ps[j].1 >= 1
}

/// The rows are well formed: each term once, each row well formed.
pub open spec fn rows_wf(v: Rows) -> bool {
    &&& forall|a: int, b: int| 0 <= a < v.len() && 0 <= b < v.len() && v[a].0 == v[b].0 ==> a == b
    &&& forall|i: int| 0 <= i < v.len() ==> row_wf(#[trigger] v[i].1)
}

/// `(t, d)` stands in the rows: in the row of `t`, among its documents.
pub open spec fn listed(v: Rows, t: Seq<char>, d: Seq<char>) -> bool {
    exists|i: int, j: int|
        0 <= i < v.len() && 0 <= j < v[i].1.len() && #[trigger] v[i].1[j] == (d, count_in(v, t, d))
            && v[i].0 == t
}

/// In well-formed rows each listed count is the count of its term and
/// document, and every pair with a positive count is listed: the index text
/// shows exactly the positive counts.
pub proof fn lemma_rows_show_counts(v: Rows)
    requires
        rows_wf(v),
    ensures
        forall|i: int, j: int|
            0 <= i < v.len() && 0 <= j < v[i].1.len() ==> #[trigger] count_in(v, v[i].0, v[i].1[j].0)
                == v[i].1[j].1 && v[i].1[j].1 > 0,
        forall|t: Seq<char>, d: Seq<char>| count_in(v, t, d) > 0 <==> #[trigger] listed(v, t, d),
{
    assert forall|i: int, j: int| 0 <= i < v.len() && 0 <= j < v[i].1.len() implies #[trigger] count_in(
        v,
        v[i].0,
        v[i].1[j].0,
    ) == v[i].1[j].1 && v[i].1[j].1 > 0 by {
        let t = v[i].0;
        let d = v[i].1[j].0;
        assert(has_term(v, t));
        assert(term_row(v, t) == i);
        assert(row_wf(v[i].1));
        assert(has_doc(v[i].1, d));
        assert(doc_pos(v[i].1, d) == j);
    };
    assert forall|t: Seq<char>, d: Seq<char>| count_in(v, t, d) > 0 <==> #[trigger] listed(
        v,
        t,
        d,
    ) by {
        if count_in(v, t, d) > 0 {
            let i = term_row(v, t);
            let j = doc_pos(v[i].1, d);
            assert(v[i].1[j] == (d, count_in(v, t, d)));
        }
        if listed(v, t, d) {
            let (i, j) = choose|i: int, j: int|
                0 <= i < v.len() && 0 <= j < v[i].1.len() && #[trigger] v[i].1[j] == (d, count_in(
                    v,
                    t,
                    d,
                )) && v[i].0 == t;
            assert(row_wf(v[i].1));
            assert(count_in(v, v[i].0, v[i].1[j].0) == v[i].1[j].1);
        }
    };
}

/// The (term, document) pair `(t, d)`.
pub open spec fn pair_is(t: Seq<char>, d: Seq<char>) -> spec_fn((Seq<char>, Seq<char>)) -> bool {
    |p: (Seq<char>, Seq<char>)| p.0 == t && p.1 == d
}

/// A pair whose term is `t`.
pub open spec fn term_is(t: Seq<char>) -> spec_fn((Seq<char>, Seq<char>)) -> bool {
    |p: (Seq<char>, Seq<char>)| p.0 == t
}

/// How often `(t, d)` occurs in a sequence of pairs.
pub open spec fn pair_count(s: Seq<(Seq<char>, Seq<char>)>, t: Seq<char>, d: Seq<char>) -> nat {
    s.filter(pair_is(t, d)).len()
}

/// How often a pair with term `t` occurs in a sequence of pairs.
pub open spec fn term_count(s: Seq<(Seq<char>, Seq<char>)>, t: Seq<char>) -> nat {
    s.filter(term_is(t)).len()
}

/// The text of a row's documents: `doc:count` for each, each followed by a
/// space.
pub open spec fn postings_text(ps: Seq<(Seq<char>, nat)>) -> Seq<char>
    decreases ps.len(),
{
    if ps.len() == 0 {
        seq![]
    } else {
        postings_text(ps.drop_last()) + ps.last().0 + seq![':'] + decimal(ps.last().1) + seq![' ']
    }
}

/// One line of the index text: the term, a tab, its documents, a line feed.
pub open spec fn line_text(row: (Seq<char>, Seq<(Seq<char>, nat)>)) -> Seq<char> {
    row.0 + seq!['\t'] + postings_text(row.1) + seq!['\n']
}

/// The index text: one line for each row, in order.
pub open spec fn index_text(v: Rows) -> Seq<char>
    decreases v.len(),
{
    if v.len() == 0 {
        seq![]
    } else {
        index_text(v.drop_last()) + line_text(v.last())
    }
}

struct DocCount {
    doc: String,
    count: u64,
}

struct TermEntry {
    term: String,
    postings: Vec<DocCount>,
}

spec fn postings_view(ps: Seq<DocCount>) -> Seq<(Seq<char>, nat)> {
    ps.map_values(|p: DocCount| (p.doc@, p.count as nat))
}

/// The inverted index: term, then document, then number of occurrences.
/// It has one writer, which records pairs one at a time.
pub struct InvertedIndex {
    entries: Vec<TermEntry>,
    recorded: u64,
}

impl View for InvertedIndex {
    type V = Rows;

    closed spec fn view(&self) -> Rows {
        self.entries@.map_values(|e: TermEntry| (e.term@, postings_view(e.postings@)))
    }
}

proof fn lemma_sum_update(ps: Seq<(Seq<char>, nat)>, j: int, c: nat)
    requires
        0 <= j < ps.len(),
    ensures
        sum_counts(ps.update(j, (ps[j].0, c))) + ps[j].1 == sum_counts(ps) + c,
    decreases ps.len(),
{
    let q = ps.update(j, (ps[j].0, c));
    if j == ps.len() - 1 {
        assert(q.drop_last() =~= ps.drop_last());
    } else {
        assert(q.drop_last() =~= ps.drop_last().update(j, (ps[j].0, c)));
        lemma_sum_update(ps.drop_last(), j, c);
    }
}

impl InvertedIndex {
    /// The number of pairs recorded so far.
    pub closed spec fn recorded(&self) -> nat {
        self.recorded as nat
    }

    /// The rows are well formed and no count exceeds the number of pairs
    /// recorded.
    pub open spec fn wf(&self) -> bool {
        &&& rows_wf(self@)
        &&& forall|i: int, j: int|
            0 <= i < self@.len() && 0 <= j < self@[i].1.len() ==> self@[i].1[j].1 <= self.recorded()
    }

    /// An empty index.
    pub fn new() -> (r: InvertedIndex)
        ensures
            r.wf(),
            r.recorded() == 0,
            r@.len() == 0,
            forall|t: Seq<char>, d: Seq<char>| count_in(r@, t, d) == 0,
            forall|t: Seq<char>| term_total(r@, t) == 0,
    {
        let r = InvertedIndex { entries: Vec::new(), recorded: 0 };
        assert(r@ =~= Seq::empty());
        r
    }

    /// The number of pairs recorded so far.
    pub fn total(&self) -> (r: u64)
        ensures
            r == self.recorded(),
    {
        self.recorded
    }

    /// Records one occurrence of `term` in document `doc`.
    pub fn record(&mut self, term: String, doc: String)
        requires
            old(self).wf(),
            old(self).recorded() < u64::MAX,
        ensures
            final(self).wf(),
            final(self).recorded() == old(self).recorded() + 1,
            forall|t: Seq<char>, d: Seq<char>|
                count_in(final(self)@, t, d) == count_in(old(self)@, t, d) + (if t == term@ && d
                    == doc@ {
                    1nat
                } else {
                    0nat
                }),
            forall|t: Seq<char>|
                term_total(final(self)@, t) == term_total(old(self)@, t) + (if t == term@ {
                    1nat
                } else {
                    0nat
                }),
    {
        let ghost v = self@;
        let mut i: usize = 0;
        while i < self.entries.len() && self.entries[i].term != term
            invariant
                i <= self.entries.len(),
                v == self@,
                forall|k: int| 0 <= k < i ==> v[k].0 != term@,
            decreases self.entries.len() - i,
        {
            i = i + 1;
        }
        if i == self.entries.len() {
            let mut ps: Vec<DocCount> = Vec::new();
            ps.push(DocCount { doc, count: 1 });
            let ghost row = postings_view(ps@);
            self.entries.push(TermEntry { term, postings: ps });
            self.recorded = self.recorded + 1;
            proof {
                assert(row =~= seq![(doc@, 1nat)]);
                assert(sum_counts(row) == 1) by {
                    assert(row.drop_last() =~= Seq::<(Seq<char>, nat)>::empty());
                    assert(sum_counts(row.drop_last()) == 0);
                }
                assert(self@ =~= v.push((term@, row)));
                let w = self@;
                assert(rows_wf(w));
                assert forall|t: Seq<char>, d: Seq<char>|
                    count_in(w, t, d) == count_in(v, t, d) + (if t == term@ && d == doc@ {
                        1nat
                    } else {
                        0nat
                    }) by {
                    if t == term@ {
                        assert(has_term(w, t)) by {
                            assert(w[v.len() as int].0 == t);
                        }
                        assert(term_row(w, t) == v.len());
                        assert(!has_term(v, t));
                        if d == doc@ {
                            assert(has_doc(row, d)) by {
                                assert(row[0].0 == d);
                            }
                            assert(doc_pos(row, d) == 0);
                        } else {
                            assert(!has_doc(row, d));
                        }
                    } else if has_term(w, t) {
                        let k = term_row(w, t);
                        assert(k < v.len());
                        assert(has_term(v, t)) by {
                            assert(v[k].0 == t);
                        }
                        assert(term_row(v, t) == k);
                    } else if has_term(v, t) {
                        let k = term_row(v, t);
                        assert(w[k].0 == t);
                    }
                };
                assert forall|t: Seq<char>|
                    term_total(w, t) == term_total(v, t) + (if t == term@ {
                        1nat
                    } else {
                        0nat
                    }) by {
                    if t == term@ {
                        assert(has_term(w, t)) by {
                            assert(w[v.len() as int].0 == t);
                        }
                        assert(term_row(w, t) == v.len());
                        assert(!has_term(v, t));
                    } else if has_term(w, t) {
                        let k = term_row(w, t);
                        assert(k < v.len());
                        assert(has_term(v, t)) by {
                            assert(v[k].0 == t);
                        }
                        assert(term_row(v, t) == k);
                    } else if has_term(v, t) {
                        let k = term_row(v, t);
                        assert(w[k].0 == t);
                    }
                };
            }
            return;
        }
        proof {
            assert(v[i as int].0 == term@);
        }
        let ghost ps = v[i as int].1;
        let mut j: usize = 0;
        while j < self.entries[i].postings.len() && self.entries[i].postings[j].doc != doc
            invariant
                i < self.entries.len(),
                j <= self.entries[i as int].postings.len(),
                v == self@,
                ps == v[i as int].1,
                forall|k: int| 0 <= k < j ==> ps[k].0 != doc@,
            decreases self.entries[i as int].postings.len() - j,
        {
            j = j + 1;
        }
        let ghost new_row: Seq<(Seq<char>, nat)>;
        if j == self.entries[i].postings.len() {
            self.entries[i].postings.push(DocCount { doc, count: 1 });
            proof {
                new_row = ps.push((doc@, 1nat));
                assert(postings_view(self.entries@[i as int].postings@) =~= new_row);
                assert(new_row.drop_last() =~= ps);
            }
        } else {
            let c = self.entries[i].postings[j].count;
            proof {
                assert(ps[j as int].0 == doc@);
                assert(c <= self.recorded);
            }
            self.entries[i].postings[j].count = c + 1;
            proof {
                new_row = ps.update(j as int, (doc@, (c + 1) as nat));
                assert(postings_view(self.entries@[i as int].postings@) =~= new_row);
                lemma_sum_update(ps, j as int, (c + 1) as nat);
            }
        }
        self.recorded = self.recorded + 1;
        proof {
            let w = self@;
            assert(w =~= v.update(i as int, (term@, new_row)));
            assert(row_wf(new_row));
            assert(rows_wf(w)) by {
                assert forall|a: int| 0 <= a < w.len() implies row_wf(#[trigger] w[a].1) by {
                    if a != i {
                        assert(w[a] == v[a]);
                    }
                };
            };
            assert(sum_counts(new_row) == sum_counts(ps) + 1);
            assert forall|t: Seq<char>, d: Seq<char>|
                count_in(w, t, d) == count_in(v, t, d) + (if t == term@ && d == doc@ {
                    1nat
                } else {
                    0nat
                }) by {
                if t == term@ {
                    assert(has_term(w, t)) by {
                        assert(w[i as int].0 == t);
                    }
                    assert(has_term(v, t)) by {
                        assert(v[i as int].0 == t);
                    }
                    assert(term_row(w, t) == i);
                    assert(term_row(v, t) == i);
                    if has_doc(new_row, d) {
                        let q = doc_pos(new_row, d);
                        if q < ps.len() && q != j {
                            assert(has_doc(ps, d)) by {
                                assert(ps[q].0 == d);
                            }
                            assert(doc_pos(ps, d) == q);
                        }
                        if d == doc@ && j < ps.len() {
                            assert(has_doc(ps, d)) by {
                                assert(ps[j as int].0 == d);
                            }
                            assert(doc_pos(ps, d) == j);
                        }
                    } else {
                        if has_doc(ps, d) {
                            let q = doc_pos(ps, d);
                            assert(new_row[q].0 == d);
                        }
                        if d == doc@ {
                            assert(new_row[j as int].0 == d);
                        }
                    }
                } else if has_term(w, t) {
                    let k = term_row(w, t);
                    assert(has_term(v, t)) by {
                        assert(v[k].0 == t);
                    }
                    assert(term_row(v, t) == k);
                } else if has_term(v, t) {
                    let k = term_row(v, t);
                    assert(w[k].0 == t);
                }
            };
            assert forall|t: Seq<char>|
                term_total(w, t) == term_total(v, t) + (if t == term@ {
                    1nat
                } else {
                    0nat
                }) by {
                if t == term@ {
                    assert(has_term(w, t)) by {
                        assert(w[i as int].0 == t);
                    }
                    assert(has_term(v, t)) by {
                        assert(v[i as int].0 == t);
                    }
                    assert(term_row(w, t) == i);
                    assert(term_row(v, t) == i);
                } else if has_term(w, t) {
                    let k = term_row(w, t);
                    assert(has_term(v, t)) by {
                        assert(v[k].0 == t);
                    }
                    assert(term_row(v, t) == k);
                } else if has_term(v, t) {
                    let k = term_row(v, t);
                    assert(w[k].0 == t);
                }
            };
        }
    }

    /// Records each pair of `pairs`, in order.
    pub fn record_all(&mut self, pairs: &Vec<Occurrence>)
        requires
            old(self).wf(),
            old(self).recorded() + pairs.len() <= u64::MAX,
        ensures
            final(self).wf(),
            final(self).recorded() == old(self).recorded() + pairs.len(),
            forall|t: Seq<char>, d: Seq<char>|
                count_in(final(self)@, t, d) == count_in(old(self)@, t, d) + pair_count(
                    occurrences_view(pairs@),
                    t,
                    d,
                ),
            forall|t: Seq<char>|
                term_total(final(self)@, t) == term_total(old(self)@, t) + term_count(
                    occurrences_view(pairs@),
                    t,
                ),
    {
        let ghost s = occurrences_view(pairs@);
        let ghost v0 = self@;
        let mut i: usize = 0;
        proof {
            assert(s.take(0) =~= Seq::<(Seq<char>, Seq<char>)>::empty());
        }
        while i < pairs.len()
            invariant
                i <= pairs.len(),
                s == occurrences_view(pairs@),
                self.wf(),
                self.recorded() == old(self).recorded() + i,
                old(self).recorded() + pairs.len() <= u64::MAX,
                forall|t: Seq<char>, d: Seq<char>|
                    count_in(self@, t, d) == count_in(v0, t, d) + pair_count(s.take(i as int), t, d),
                forall|t: Seq<char>|
                    term_total(self@, t) == term_total(v0, t) + term_count(s.take(i as int), t),
            decreases pairs.len() - i,
        {
            let p = &pairs[i];
            self.record(p.term.clone(), p.doc.clone());
            proof {
                let u = s.take(i + 1);
                assert(u.drop_last() =~= s.take(i as int));
                assert(u.last() == (p.term@, p.doc@));
                assert forall|t: Seq<char>, d: Seq<char>|
                    pair_count(u, t, d) == pair_count(s.take(i as int), t, d) + (if t == p.term@
                        && d == p.doc@ {
                        1nat
                    } else {
                        0nat
                    }) by {
                    reveal(Seq::filter);
                    assert(u.filter(pair_is(t, d)) == (if pair_is(t, d)(u.last()) {
                        u.drop_last().filter(pair_is(t, d)).push(u.last())
                    } else {
                        u.drop_last().filter(pair_is(t, d))
                    }));
                };
                assert forall|t: Seq<char>|
                    term_count(u, t) == term_count(s.take(i as int), t) + (if t == p.term@ {
                        1nat
                    } else {
                        0nat
                    }) by {
                    reveal(Seq::filter);
                    assert(u.filter(term_is(t)) == (if term_is(t)(u.last()) {
                        u.drop_last().filter(term_is(t)).push(u.last())
                    } else {
                        u.drop_last().filter(term_is(t))
                    }));
                };
            }
            i = i + 1;
        }
        proof {
            assert(s.take(i as int) =~= s);
        }
    }

    /// How often `term` was recorded for `doc`.
    pub fn count(&self, term: &String, doc: &String) -> (r: u64)
        requires
            self.wf(),
        ensures
            r == count_in(self@, term@, doc@),
    {
        let ghost v = self@;
        let mut i: usize = 0;
        while i < self.entries.len()
            invariant
                i <= self.entries.len(),
                v == self@,
                self.wf(),
                forall|k: int| 0 <= k < i ==> v[k].0 != term@,
            decreases self.entries.len() - i,
        {
            if self.entries[i].term == *term {
                let ps = &self.entries[i].postings;
                let ghost row = v[i as int].1;
                proof {
                    assert(v[i as int].0 == term@);
                    assert(has_term(v, term@));
                    assert(term_row(v, term@) == i);
                    assert(row_wf(v[i as int].1));
                }
                let mut j: usize = 0;
                while j < ps.len()
                    invariant
                        j <= ps.len(),
                        row == postings_view(ps@),
                        row_wf(row),
                        v == self@,
                        count_in(v, term@, doc@) == doc_count(row, doc@),
                        forall|k: int| 0 <= k < j ==> row[k].0 != doc@,
                    decreases ps.len() - j,
                {
                    if ps[j].doc == *doc {
                        proof {
                            assert(row[j as int].0 == doc@);
                            assert(has_doc(row, doc@));
                            assert(doc_pos(row, doc@) == j);
                            assert(row[j as int].1 == ps@[j as int].count as nat);
                        }
                        return ps[j].count;
                    }
                    j = j + 1;
                }
                return 0;
            }
            i = i + 1;
        }
        0
    }

    /// The index as text: for each term, in order of first sight, a line with
    /// the term, a tab, then `doc:count` and a space for each of its
    /// documents, and a line feed.
    pub fn render(&self) -> (r: String)
        ensures
            r@ == index_text(self@),
    {
        let ghost v = self@;
        let mut out: Vec<char> = Vec::new();
        let mut i: usize = 0;
        while i < self.entries.len()
            invariant
                i <= self.entries.len(),
                v == self@,
                out@ == index_text(v.take(i as int)),
            decreases self.entries.len() - i,
        {
            let e = &self.entries[i];
            let ghost row = v[i as int];
            let mut term_chars = chars_of(e.term.as_str());
            let ghost start = out@;
            out.append(&mut term_chars);
            out.push('\t');
            let mut j: usize = 0;
            proof {
                assert(row.1.take(0) =~= Seq::<(Seq<char>, nat)>::empty());
                assert(out@ =~= start + row.0 + seq!['\t'] + postings_text(row.1.take(0)));
            }
            while j < e.postings.len()
                invariant
                    j <= e.postings.len(),
                    row == (e.term@, postings_view(e.postings@)),
                    out@ == start + row.0 + seq!['\t'] + postings_text(row.1.take(j as int)),
                decreases e.postings.len() - j,
            {
                let p = &e.postings[j];
                let mut doc_chars = chars_of(p.doc.as_str());
                let mut digits = decimal_chars(p.count);
                let ghost mid = out@;
                out.append(&mut doc_chars);
                out.push(':');
                out.append(&mut digits);
                out.push(' ');
                proof {
                    let u = row.1.take(j + 1);
                    assert(u.drop_last() =~= row.1.take(j as int));
                    assert(u.last() == (p.doc@, p.count as nat));
                    assert(out@ =~= mid + p.doc@ + seq![':'] + decimal(p.count as nat) + seq![' ']);
                }
                j = j + 1;
            }
            out.push('\n');
            proof {
                assert(row.1.take(j as int) =~= row.1);
                let u = v.take(i + 1);
                assert(u.drop_last() =~= v.take(i as int));
                assert(out@ =~= start + line_text(row));
            }
            i = i + 1;
        }
        proof {
            assert(v.take(i as int) =~= v);
        }
        text_of(&out)
    }
}

/// The index of a corpus, built in one thread: each document's pairs are
/// emitted and recorded, one document after another.
pub fn build_index(docs: &Vec<Document>, mode: NgramMode) -> (r: InvertedIndex)
    requires
        corpus_pairs(documents_view(docs@), mode).len() <= u64::MAX,
    ensures
        r.wf(),
        r.recorded() == corpus_pairs(documents_view(docs@), mode).len(),
        forall|t: Seq<char>, d: Seq<char>|
            count_in(r@, t, d) == pair_count(corpus_pairs(documents_view(docs@), mode), t, d),
        forall|t: Seq<char>|
            term_total(r@, t) == term_count(corpus_pairs(documents_view(docs@), mode), t),
{
    let ghost ds = documents_view(docs@);
    let mut index = InvertedIndex::new();
    let mut i: usize = 0;
    proof {
        lemma_corpus_pairs_empty(ds.take(0), mode);
        reveal(Seq::filter);
    }
    while i < docs.len()
        invariant
            i <= docs.len(),
            ds == documents_view(docs@),
            corpus_pairs(ds, mode).len() <= u64::MAX,
            index.wf(),
            index.recorded() == corpus_pairs(ds.take(i as int), mode).len(),
            forall|t: Seq<char>, d: Seq<char>|
                count_in(index@, t, d) == pair_count(corpus_pairs(ds.take(i as int), mode), t, d),
            forall|t: Seq<char>|
                term_total(index@, t) == term_count(corpus_pairs(ds.take(i as int), mode), t),
        decreases docs.len() - i,
    {
        let pairs = emit(&docs[i], mode);
        let ghost before = corpus_pairs(ds.take(i as int), mode);
        let ghost e = occurrences_view(pairs@);
        proof {
            let u = ds.take(i + 1);
            assert(u.drop_last() =~= ds.take(i as int));
            lemma_corpus_pairs_last(u, mode);
            assert(corpus_pairs(u, mode) == before + e);
            lemma_corpus_pairs_prefix(ds, mode, i + 1);
        }
        index.record_all(&pairs);
        proof {
            let u = ds.take(i + 1);
            assert forall|t: Seq<char>, d: Seq<char>|
                count_in(index@, t, d) == pair_count(corpus_pairs(u, mode), t, d) by {
                Seq::filter_distributes_over_add(before, e, pair_is(t, d));
            };
            assert forall|t: Seq<char>|
                term_total(index@, t) == term_count(corpus_pairs(u, mode), t) by {
                Seq::filter_distributes_over_add(before, e, term_is(t));
            };
        }
        i = i + 1;
    }
    proof {
        assert(ds.take(i as int) =~= ds);
    }
    index
}

} // verus!
