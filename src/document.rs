use vstd::prelude::*;
use vstd::utf8::{decode_utf8, valid_utf8};

use crate::text::{chars_of, fields, normalize, normalize_token, split_fields, strings_view, text_of};

verus! {

/// Why a document could not be read.
#[derive(Clone, Copy, Debug, PartialEq, Eq, Structural)]
pub enum ParseError {
    /// The document holds no tab, so it has no identifier.
    MissingDelimiter,
    /// The document's bytes are not UTF-8.
    Encoding,
}

/// One parsed document: its identifier and its canonical tokens, in order.
pub struct Document {
    pub id: String,
    pub tokens: Vec<String>,
}

/// What a parsed document stands for.
pub struct DocumentView {
    pub id: Seq<char>,
    pub tokens: Seq<Seq<char>>,
}

impl View for Document {
    type V = DocumentView;

    open spec fn view(&self) -> DocumentView {
        DocumentView { id: self.id@, tokens: strings_view(self.tokens@) }
    }
}

/// The canonical token stream of a document body: the body is split on the
/// space character into raw tokens, and the canonical tokens of each raw
/// token follow one another in order.
pub open spec fn canonical_tokens(body: Seq<char>) -> Seq<Seq<char>> {
    normalize_all(fields(body, false)).flatten()
}

/// The canonical tokens of each raw token.
pub open spec fn normalize_all(raws: Seq<Seq<char>>) -> Seq<Seq<Seq<char>>> {
    raws.map_values(|raw: Seq<char>| normalize(raw))
}

/// `k` is the position of the first tab of `t`.
pub open spec fn is_first_tab(t: Seq<char>, k: int) -> bool {
    &&& 0 <= k < t.len()
    &&& t[k] == '\t'
    &&& forall|j: int| 0 <= j < k ==> t[j] != '\t'
}

/// The position of the first tab of `t`, where there is one.
pub open spec fn first_tab(t: Seq<char>) -> int {
    choose|k: int| is_first_tab(t, k)
}

/// A document's text, read: the identifier is the text before the first tab,
/// the tokens come from the text after it.
pub open spec fn parse_text(t: Seq<char>) -> Result<DocumentView, ParseError> {
    if !t.contains('\t') {
        Err(ParseError::MissingDelimiter)
    } else {
        let k = first_tab(t);
        Ok(DocumentView { id: t.take(k), tokens: canonical_tokens(t.skip(k + 1)) })
    }
}

/// A document's bytes, read: they must be UTF-8 and hold a tab.
pub open spec fn parse_bytes(b: Seq<u8>) -> Result<DocumentView, ParseError> {
    if !valid_utf8(b) {
        Err(ParseError::Encoding)
    } else {
        parse_text(decode_utf8(b))
    }
}

/// Relies on `std::str::from_utf8`: it accepts exactly the UTF-8 byte
/// sequences, and the text it gives is their decoding.
#[verifier::external_body]
fn decode_text(b: &[u8]) -> (r: Option<String>)
    ensures
        r is Some <==> valid_utf8(b@),
        r matches Some(s) ==> s@ == decode_utf8(b@),
{
    match std::str::from_utf8(b) {
        Ok(s) => Some(s.to_string()),
        Err(_) => None,
    }
}

/// The canonical token stream of a document body.
pub fn tokenize(body: &Vec<char>) -> (r: Vec<String>)
    ensures
        strings_view(r@) == canonical_tokens(body@),
{
    let raws = split_fields(body, false);
    let ghost raw_views = fields(body@, false);
    let mut out: Vec<String> = Vec::new();
    let mut i: usize = 0;
    while i < raws.len()
        invariant
            i <= raws.len(),
            strings_view(raws@) == raw_views,
            raw_views == fields(body@, false),
            strings_view(out@) == normalize_all(raw_views.take(i as int)).flatten(),
        decreases raws.len() - i,
    {
        let mut pieces = normalize_token(raws[i].as_str());
        proof {
            assert(raw_views[i as int] == raws@[i as int]@);
            assert(normalize_all(raw_views.take(i + 1)) =~= normalize_all(
                raw_views.take(i as int),
            ).push(normalize(raw_views[i as int])));
            normalize_all(raw_views.take(i as int)).lemma_flatten_push(
                normalize(raw_views[i as int]),
            );
            assert(strings_view(out@ + pieces@) =~= strings_view(out@) + strings_view(pieces@));
        }
        out.append(&mut pieces);
        i = i + 1;
    }
    proof {
        assert(raw_views.take(i as int) =~= raw_views);
    }
    out
}

/// Reads one document from its bytes.
pub fn parse_document(bytes: &[u8]) -> (r: Result<Document, ParseError>)
    ensures
        match r {
            Ok(d) => parse_bytes(bytes@) == Ok::<DocumentView, ParseError>(d@),
            Err(e) => parse_bytes(bytes@) == Err::<DocumentView, ParseError>(e),
        },
{
    let text = match decode_text(bytes) {
        Some(t) => t,
        None => {
            return Err(ParseError::Encoding);
        },
    };
    let mut head = chars_of(text.as_str());
    let ghost t = head@;
    let mut k: usize = 0;
    while k < head.len() && head[k] != '\t'
        invariant
            k <= head.len(),
            head@ == t,
            forall|j: int| 0 <= j < k ==> t[j] != '\t',
        decreases head.len() - k,
    {
        k = k + 1;
    }
    if k == head.len() {
        proof {
            assert(!t.contains('\t'));
        }
        return Err(ParseError::MissingDelimiter);
    }
    proof {
        assert(is_first_tab(t, k as int));
        assert(t.contains('\t'));
        let c = first_tab(t);
        assert(is_first_tab(t, c));
        assert(c == k);
    }
    let mut tail = head.split_off(k);
    let body = tail.split_off(1);
    proof {
        assert(head@ =~= t.take(k as int));
        assert(body@ =~= t.skip(k + 1));
    }
    let id = text_of(&head);
    let tokens = tokenize(&body);
    Ok(Document { id, tokens })
}

} // verus!
