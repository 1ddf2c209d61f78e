use vstd::prelude::*;

use crate::distribute::{is_round_robin, workers_for};
use crate::document::DocumentView;
use crate::index::{pair_count, pair_is, term_count, term_is};
use crate::ngram::{
    corpus_pairs, emissions, grams, join, lemma_corpus_pairs_empty, lemma_corpus_pairs_last, tag,
    NgramMode,
};

verus! {

/// A token equal to `t`.
pub open spec fn token_is(t: Seq<char>) -> spec_fn(Seq<char>) -> bool {
    |x: Seq<char>| x == t
}

/// How often `t` occurs in a sequence of tokens or n-grams.
pub open spec fn occurrences(toks: Seq<Seq<char>>, t: Seq<char>) -> nat {
    toks.filter(token_is(t)).len()
}

/// How often token `t` occurs over all documents whose identifier is `d`.
pub open spec fn id_occurrences(ds: Seq<DocumentView>, t: Seq<char>, d: Seq<char>) -> nat
    decreases ds.len(),
{
    if ds.len() == 0 {
        0
    } else {
        id_occurrences(ds.drop_last(), t, d) + (if ds.last().id == d {
            occurrences(ds.last().tokens, t)
        } else {
            0
        })
    }
}

/// How often n-gram `g` occurs over the whole corpus.
pub open spec fn corpus_occurrences(ds: Seq<DocumentView>, mode: NgramMode, g: Seq<char>) -> nat
    decreases ds.len(),
{
    if ds.len() == 0 {
        0
    } else {
        corpus_occurrences(ds.drop_last(), mode, g) + occurrences(grams(ds.last().tokens, mode), g)
    }
}

proof fn lemma_tag_pair_count(gs: Seq<Seq<char>>, id: Seq<char>, t: Seq<char>, d: Seq<char>)
    ensures
        tag(gs, id).filter(pair_is(t, d)).len() == (if id == d {
            occurrences(gs, t)
        } else {
            0
        }),
    decreases gs.len(),
{
    reveal(Seq::filter);
    if gs.len() > 0 {
        assert(tag(gs, id).drop_last() =~= tag(gs.drop_last(), id));
        lemma_tag_pair_count(gs.drop_last(), id, t, d);
    }
}

proof fn lemma_tag_term_count(gs: Seq<Seq<char>>, id: Seq<char>, g: Seq<char>)
    ensures
        tag(gs, id).filter(term_is(g)).len() == occurrences(gs, g),
    decreases gs.len(),
{
    reveal(Seq::filter);
    if gs.len() > 0 {
        assert(tag(gs, id).drop_last() =~= tag(gs.drop_last(), id));
        lemma_tag_term_count(gs.drop_last(), id, g);
    }
}

/// In the unigram pairs of a corpus, `(t, d)` occurs as often as token `t`
/// occurs in the documents whose identifier is `d`, summed over those
/// documents.
pub proof fn lemma_unigram_counts(ds: Seq<DocumentView>, t: Seq<char>, d: Seq<char>)
    ensures
        pair_count(corpus_pairs(ds, NgramMode::Unigram), t, d) == id_occurrences(ds, t, d),
    decreases ds.len(),
{
    reveal(Seq::filter);
    if ds.len() == 0 {
        lemma_corpus_pairs_empty(ds, NgramMode::Unigram);
    } else {
        let m = NgramMode::Unigram;
        lemma_corpus_pairs_last(ds, m);
        Seq::filter_distributes_over_add(
            corpus_pairs(ds.drop_last(), m),
            emissions(ds.last(), m),
            pair_is(t, d),
        );
        lemma_unigram_counts(ds.drop_last(), t, d);
        lemma_tag_pair_count(ds.last().tokens, ds.last().id, t, d);
    }
}

/// A document with `n >= 2` tokens emits exactly `n - 1` bigrams, the i-th
/// joining tokens i and i + 1; one with fewer tokens emits none.
pub proof fn lemma_bigram_shape(d: DocumentView)
    ensures
        emissions(d, NgramMode::Bigram).len() == (if d.tokens.len() >= 2 {
            d.tokens.len() - 1
        } else {
            0
        }),
        forall|i: int|
            0 <= i < emissions(d, NgramMode::Bigram).len() ==> #[trigger] emissions(
                d,
                NgramMode::Bigram,
            )[i] == (join(d.tokens[i], d.tokens[i + 1]), d.id),
{
}

/// `p` joins two adjacent tokens of one document of `ds` and names that
/// document.
pub open spec fn within_one_document(p: (Seq<char>, Seq<char>), ds: Seq<DocumentView>) -> bool {
    exists|m: int, i: int|
        0 <= m < ds.len() && 0 <= i && i + 1 < ds[m].tokens.len() && p == (join(
            #[trigger] ds[m].tokens[i],
            ds[m].tokens[i + 1],
        ), ds[m].id)
}

/// Every bigram pair of a corpus joins two adjacent tokens of one document
/// and names that document: no bigram spans two documents, whatever
/// documents follow one another.
pub proof fn lemma_bigrams_within_documents(ds: Seq<DocumentView>)
    ensures
        forall|k: int|
            0 <= k < corpus_pairs(ds, NgramMode::Bigram).len() ==> within_one_document(
                #[trigger] corpus_pairs(ds, NgramMode::Bigram)[k],
                ds,
            ),
    decreases ds.len(),
{
    let b = NgramMode::Bigram;
    if ds.len() == 0 {
        lemma_corpus_pairs_empty(ds, b);
    } else {
        let front = ds.drop_last();
        lemma_corpus_pairs_last(ds, b);
        lemma_bigrams_within_documents(front);
        let p = corpus_pairs(front, b);
        let e = emissions(ds.last(), b);
        assert forall|k: int| 0 <= k < corpus_pairs(ds, b).len() implies within_one_document(
            #[trigger] corpus_pairs(ds, b)[k],
            ds,
        ) by {
            if k < p.len() {
                assert(corpus_pairs(ds, b)[k] == p[k]);
                assert(within_one_document(p[k], front));
                let (m, i) = choose|m: int, i: int|
                    0 <= m < front.len() && 0 <= i && i + 1 < front[m].tokens.len() && p[k] == (join(
                        #[trigger] front[m].tokens[i],
                        front[m].tokens[i + 1],
                    ), front[m].id);
                assert(ds[m] == front[m]);
                assert(ds[m].tokens[i] == front[m].tokens[i]);
            } else {
                let i = k - p.len();
                let m = ds.len() - 1;
                lemma_bigram_shape(ds.last());
                assert(corpus_pairs(ds, b)[k] == e[i]);
                assert(ds[m] == ds.last());
                assert(e[i] == (join(ds[m].tokens[i], ds[m].tokens[i + 1]), ds[m].id));
            }
        };
    }
}

/// Summing the counts of n-gram `g` over its documents gives the number of
/// times `g` occurs in the corpus: the pairs with term `g` are exactly its
/// occurrences.
pub proof fn lemma_term_totals(ds: Seq<DocumentView>, mode: NgramMode, g: Seq<char>)
    ensures
        term_count(corpus_pairs(ds, mode), g) == corpus_occurrences(ds, mode, g),
    decreases ds.len(),
{
    reveal(Seq::filter);
    if ds.len() == 0 {
        lemma_corpus_pairs_empty(ds, mode);
    } else {
        lemma_corpus_pairs_last(ds, mode);
        Seq::filter_distributes_over_add(
            corpus_pairs(ds.drop_last(), mode),
            emissions(ds.last(), mode),
            term_is(g),
        );
        lemma_term_totals(ds.drop_last(), mode, g);
        lemma_tag_term_count(grams(ds.last().tokens, mode), ds.last().id, g);
    }
}

/// How often a pair occurs depends on the pairs alone, not on their order:
/// two sequences that hold the same pairs, in any order, give the same counts.
pub proof fn lemma_counts_ignore_order(
    s1: Seq<(Seq<char>, Seq<char>)>,
    s2: Seq<(Seq<char>, Seq<char>)>,
    t: Seq<char>,
    d: Seq<char>,
)
    requires
        s1.to_multiset() == s2.to_multiset(),
    ensures
        pair_count(s1, t, d) == pair_count(s2, t, d),
{
    lemma_pair_count_multiset(s1, t, d);
    lemma_pair_count_multiset(s2, t, d);
}

proof fn lemma_pair_count_multiset(s: Seq<(Seq<char>, Seq<char>)>, t: Seq<char>, d: Seq<char>)
    ensures
        pair_count(s, t, d) == s.to_multiset().count((t, d)),
    decreases s.len(),
{
    reveal(Seq::filter);
    broadcast use vstd::seq_lib::group_to_multiset_ensures;

    if s.len() == 0 {
        assert(s.to_multiset().count((t, d)) == 0);
    } else {
        lemma_pair_count_multiset(s.drop_last(), t, d);
        assert(s =~= s.drop_last().push(s.last()));
        assert(s.to_multiset() == s.drop_last().to_multiset().insert(s.last()));
    }
}

/// Document `i` stands in queue `i % w`, at place `i / w`.
pub open spec fn placed(r: Seq<Seq<usize>>, w: int, i: int) -> bool {
    &&& i / w < r[i % w].len()
    &&& r[i % w][i / w] == i
}

/// Every document of `0..n` stands in exactly one queue of the round-robin
/// deal, and the queues hold nothing else.
pub proof fn lemma_partition(r: Seq<Seq<usize>>, n: nat)
    requires
        is_round_robin(r, n, workers_for(n)),
    ensures
        forall|i: int| 0 <= i < n ==> #[trigger] placed(r, workers_for(n) as int, i),
        forall|q: int, k: int| 0 <= q < r.len() && 0 <= k < r[q].len() ==> r[q][k] < n,
        forall|q1: int, k1: int, q2: int, k2: int|
            0 <= q1 < r.len() && 0 <= k1 < r[q1].len() && 0 <= q2 < r.len() && 0 <= k2
                < r[q2].len() && r[q1][k1] == r[q2][k2] ==> q1 == q2 && k1 == k2,
{
    let w = workers_for(n) as int;
    assert forall|i: int| 0 <= i < n implies #[trigger] placed(r, w, i) by {
        assert(w > 0);
        let q = i % w;
        let k = i / w;
        assert(i == k * w + q && 0 <= q < w && 0 <= k) by (nonlinear_arith)
            requires
                w > 0,
                i >= 0,
                q == i % w,
                k == i / w,
        ;
        let nn = n as int;
        assert(k < (if q < nn % w {
            nn / w + 1
        } else {
            nn / w
        })) by (nonlinear_arith)
            requires
                w > 0,
                0 <= i < nn,
                q == i % w,
                k == i / w,
        ;
        assert(r[q].len() == (if q < nn % w {
            nn / w + 1
        } else {
            nn / w
        }));
    };
    assert forall|q: int, k: int| 0 <= q < r.len() && 0 <= k < r[q].len() implies r[q][k] < n by {
        let nn = n as int;
        let len = r[q].len() as int;
        assert(len == (if q < nn % w {
            nn / w + 1
        } else {
            nn / w
        }));
        assert(k * w + q < nn) by (nonlinear_arith)
            requires
                w > 0,
                0 <= q < w,
                0 <= k < len,
                len == (if q < nn % w {
                    nn / w + 1
                } else {
                    nn / w
                }),
                nn >= 0,
        ;
    };
    assert forall|q1: int, k1: int, q2: int, k2: int|
        0 <= q1 < r.len() && 0 <= k1 < r[q1].len() && 0 <= q2 < r.len() && 0 <= k2 < r[q2].len()
            && r[q1][k1] == r[q2][k2] implies q1 == q2 && k1 == k2 by {
        assert(r[q1][k1] as int == k1 * w + q1);
        assert(r[q2][k2] as int == k2 * w + q2);
        assert(q1 == q2 && k1 == k2) by (nonlinear_arith)
            requires
                w > 0,
                0 <= q1 < w,
                0 <= q2 < w,
                k1 >= 0,
                k2 >= 0,
                k1 * w + q1 == k2 * w + q2,
        ;
    };
}

} // verus!
