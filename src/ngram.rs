use vstd::prelude::*;
use vstd::seq_lib::lemma_flatten_concat;

use crate::document::{parse_bytes, parse_document, Document, DocumentView, ParseError};
use crate::text::{chars_of, strings_view, text_of};

verus! {

/// Which n-grams a run indexes.
#[derive(Clone, Copy, Debug, PartialEq, Eq, Structural)]
pub enum NgramMode {
    /// Single tokens.
    Unigram,
    /// Pairs of adjacent tokens, joined by one space.
    Bigram,
}

/// One n-gram seen in one document.
pub struct Occurrence {
    pub term: String,
    pub doc: String,
}

impl View for Occurrence {
    type V = (Seq<char>, Seq<char>);

    open spec fn view(&self) -> (Seq<char>, Seq<char>) {
        (self.term@, self.doc@)
    }
}

/// The views of a vector of occurrences.
pub open spec fn occurrences_view(v: Seq<Occurrence>) -> Seq<(Seq<char>, Seq<char>)> {
    v.map_values(|o: Occurrence| o@)
}

/// Two tokens joined by a single space.
pub open spec fn join(a: Seq<char>, b: Seq<char>) -> Seq<char> {
    a + seq![' '] + b
}

/// The bigrams of a token stream: each pair of adjacent tokens, in order.
pub open spec fn bigrams(toks: Seq<Seq<char>>) -> Seq<Seq<char>> {
    if toks.len() < 2 {
        seq![]
    } else {
        Seq::new((toks.len() - 1) as nat, |i: int| join(toks[i], toks[i + 1]))
    }
}

/// The n-grams of a token stream.
pub open spec fn grams(toks: Seq<Seq<char>>, mode: NgramMode) -> Seq<Seq<char>> {
    match mode {
        NgramMode::Unigram => toks,
        NgramMode::Bigram => bigrams(toks),
    }
}

/// Each n-gram paired with the document it was seen in.
pub open spec fn tag(gs: Seq<Seq<char>>, id: Seq<char>) -> Seq<(Seq<char>, Seq<char>)> {
    gs.map_values(|g: Seq<char>| (g, id))
}

/// The (n-gram, document) pairs that one document emits.
pub open spec fn emissions(d: DocumentView, mode: NgramMode) -> Seq<(Seq<char>, Seq<char>)> {
    tag(grams(d.tokens, mode), d.id)
}

/// The emissions of each document of a sequence.
pub open spec fn emissions_each(ds: Seq<DocumentView>, mode: NgramMode) -> Seq<
    Seq<(Seq<char>, Seq<char>)>,
> {
    ds.map_values(|d: DocumentView| emissions(d, mode))
}

/// The pairs that a sequence of documents emits, one document after another.
pub open spec fn corpus_pairs(ds: Seq<DocumentView>, mode: NgramMode) -> Seq<(Seq<char>, Seq<char>)> {
    emissions_each(ds, mode).flatten()
}

/// The views of a vector of documents.
pub open spec fn documents_view(v: Seq<Document>) -> Seq<DocumentView> {
    v.map_values(|d: Document| d@)
}

/// The pairs of a sequence of documents are those of all but the last
/// document, then those of the last.
pub proof fn lemma_corpus_pairs_last(ds: Seq<DocumentView>, mode: NgramMode)
    requires
        ds.len() > 0,
    ensures
        corpus_pairs(ds, mode) == corpus_pairs(ds.drop_last(), mode) + emissions(ds.last(), mode),
{
    assert(emissions_each(ds, mode) =~= emissions_each(ds.drop_last(), mode).push(
        emissions(ds.last(), mode),
    ));
    emissions_each(ds.drop_last(), mode).lemma_flatten_push(emissions(ds.last(), mode));
}

/// No documents emit no pairs.
pub proof fn lemma_corpus_pairs_empty(ds: Seq<DocumentView>, mode: NgramMode)
    requires
        ds.len() == 0,
    ensures
        corpus_pairs(ds, mode).len() == 0,
{
    assert(emissions_each(ds, mode) =~= Seq::<Seq<(Seq<char>, Seq<char>)>>::empty());
}

/// The pairs of a prefix of the documents are no more than those of all.
pub proof fn lemma_corpus_pairs_prefix(ds: Seq<DocumentView>, mode: NgramMode, i: int)
    requires
        0 <= i <= ds.len(),
    ensures
        corpus_pairs(ds.take(i), mode).len() <= corpus_pairs(ds, mode).len(),
{
    assert(emissions_each(ds, mode) =~= emissions_each(ds.take(i), mode) + emissions_each(
        ds.skip(i),
        mode,
    ));
    lemma_flatten_concat(emissions_each(ds.take(i), mode), emissions_each(ds.skip(i), mode));
}

/// The bigram state of one document: the token before the current one, once
/// there is one.
pub enum Carry {
    NoPrevious,
    HavePrevious(String),
}

impl View for Carry {
    type V = Option<Seq<char>>;

    open spec fn view(&self) -> Option<Seq<char>> {
        match self {
            Carry::NoPrevious => None,
            Carry::HavePrevious(p) => Some(p@),
        }
    }
}

/// Two tokens joined by a single space.
pub fn join_tokens(a: &String, b: &String) -> (r: String)
    ensures
        r@ == join(a@, b@),
{
    let mut cs = chars_of(a.as_str());
    cs.push(' ');
    let mut rest = chars_of(b.as_str());
    cs.append(&mut rest);
    text_of(&cs)
}

impl Carry {
    /// The state at the start of a document.
    pub fn start() -> (r: Carry)
        ensures
            r@ is None,
    {
        Carry::NoPrevious
    }

    /// Takes the next token of the document: gives the bigram that it ends,
    /// if any, and the state that follows.
    pub fn step(self, token: &String) -> (r: (Carry, Option<String>))
        ensures
            r.0@ == Some(token@),
            match self@ {
                None => r.1 is None,
                Some(p) => r.1 matches Some(g) && g@ == join(p, token@),
            },
    {
        match self {
            Carry::NoPrevious => (Carry::HavePrevious(token.clone()), None),
            Carry::HavePrevious(p) => {
                let g = join_tokens(&p, token);
                (Carry::HavePrevious(token.clone()), Some(g))
            },
        }
    }
}

/// The (n-gram, document) pairs of one document, in order.
pub fn emit(doc: &Document, mode: NgramMode) -> (r: Vec<Occurrence>)
    ensures
        occurrences_view(r@) == emissions(doc@, mode),
{
    let ghost toks = strings_view(doc.tokens@);
    let ghost id = doc.id@;
    let mut out: Vec<Occurrence> = Vec::new();
    let mut carry = Carry::start();
    let mut i: usize = 0;
    while i < doc.tokens.len()
        invariant
            i <= doc.tokens.len(),
            toks == strings_view(doc.tokens@),
            id == doc.id@,
            occurrences_view(out@) == tag(grams(toks.take(i as int), mode), id),
            mode == NgramMode::Bigram ==> carry@ == (if i == 0 {
                None
            } else {
                Some(toks[i - 1])
            }),
        decreases doc.tokens.len() - i,
    {
        let tok = &doc.tokens[i];
        assert(toks[i as int] == tok@);
        match mode {
            NgramMode::Unigram => {
                out.push(Occurrence { term: tok.clone(), doc: doc.id.clone() });
                proof {
                    assert(toks.take(i + 1) =~= toks.take(i as int).push(tok@));
                    assert(tag(toks.take(i + 1), id) =~= tag(toks.take(i as int), id).push(
                        (tok@, id),
                    ));
                }
            },
            NgramMode::Bigram => {
                let (next, g) = carry.step(tok);
                carry = next;
                match g {
                    Some(g) => {
                        out.push(Occurrence { term: g, doc: doc.id.clone() });
                        proof {
                            assert(bigrams(toks.take(i + 1)) =~= bigrams(toks.take(i as int)).push(
                                join(toks[i - 1], toks[i as int]),
                            ));
                            assert(tag(bigrams(toks.take(i + 1)), id) =~= tag(
                                bigrams(toks.take(i as int)),
                                id,
                            ).push((join(toks[i - 1], toks[i as int]), id)));
                        }
                    },
                    None => {
                        proof {
                            assert(bigrams(toks.take(i + 1)) =~= bigrams(toks.take(i as int)));
                        }
                    },
                }
            },
        }
        proof {
            assert(occurrences_view(out@) =~= tag(grams(toks.take(i + 1), mode), id));
        }
        i = i + 1;
    }
    proof {
        assert(toks.take(i as int) =~= toks);
    }
    out
}

/// The pairs of a queue of documents handled one after another: each
/// document starts with no previous token, so no bigram spans two documents.
pub fn emit_all(docs: &Vec<Document>, mode: NgramMode) -> (r: Vec<Occurrence>)
    ensures
        occurrences_view(r@) == corpus_pairs(documents_view(docs@), mode),
{
    let ghost ds = documents_view(docs@);
    let mut out: Vec<Occurrence> = Vec::new();
    let mut i: usize = 0;
    while i < docs.len()
        invariant
            i <= docs.len(),
            ds == documents_view(docs@),
            occurrences_view(out@) == corpus_pairs(ds.take(i as int), mode),
        decreases docs.len() - i,
    {
        let mut pairs = emit(&docs[i], mode);
        proof {
            assert(emissions_each(ds.take(i + 1), mode) =~= emissions_each(ds.take(i as int), mode).push(
                emissions(ds[i as int], mode),
            ));
            emissions_each(ds.take(i as int), mode).lemma_flatten_push(emissions(ds[i as int], mode));
            assert(occurrences_view(out@ + pairs@) =~= occurrences_view(out@) + occurrences_view(
                pairs@,
            ));
        }
        out.append(&mut pairs);
        i = i + 1;
    }
    proof {
        assert(ds.take(i as int) =~= ds);
    }
    out
}

/// The view of the outcome of reading a document and emitting its pairs.
pub open spec fn processed(b: Seq<u8>, mode: NgramMode) -> Result<Seq<(Seq<char>, Seq<char>)>, ParseError> {
    match parse_bytes(b) {
        Ok(d) => Ok(emissions(d, mode)),
        Err(e) => Err(e),
    }
}

/// A worker's handling of one document: reads it and gives its pairs.
pub fn process_document(bytes: &[u8], mode: NgramMode) -> (r: Result<Vec<Occurrence>, ParseError>)
    ensures
        match r {
            Ok(v) => processed(bytes@, mode) == Ok::<_, ParseError>(occurrences_view(v@)),
            Err(e) => processed(bytes@, mode) == Err::<Seq<(Seq<char>, Seq<char>)>, _>(e),
        },
{
    match parse_document(bytes) {
        Ok(d) => Ok(emit(&d, mode)),
        Err(e) => Err(e),
    }
}

} // verus!
