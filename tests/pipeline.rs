use ngram_index::{
    build_index, distribute, emit, emit_all, join_tokens, normalize_token, parse_document,
    process_document, round_robin, tokenize, worker_count, Carry, Document, InvertedIndex,
    NgramMode, Occurrence, ParseError, MAX_WORKERS,
};

fn doc(bytes: &str) -> Document {
    match parse_document(bytes.as_bytes()) {
        Ok(d) => d,
        Err(e) => panic!("unexpected parse error {:?}", e),
    }
}

fn lines(index: &InvertedIndex) -> Vec<String> {
    index.render().lines().map(|l| l.to_string()).collect()
}

fn strings(v: &[&str]) -> Vec<String> {
    v.iter().map(|s| s.to_string()).collect()
}

fn pair(term: &str, doc: &str) -> Occurrence {
    Occurrence { term: term.to_string(), doc: doc.to_string() }
}

#[test]
fn example_unigram_index() {
    let docs = vec![doc("doc1\tthe cat sat. the dog ran!")];
    let index = build_index(&docs, NgramMode::Unigram);
    assert_eq!(
        lines(&index),
        strings(&["the\tdoc1:2 ", "cat\tdoc1:1 ", "sat\tdoc1:1 ", "dog\tdoc1:1 ", "ran\tdoc1:1 "])
    );
}

#[test]
fn example_bigram_index() {
    let docs = vec![doc("doc1\tthe cat sat. the dog ran!")];
    let index = build_index(&docs, NgramMode::Bigram);
    assert_eq!(
        lines(&index),
        strings(&[
            "the cat\tdoc1:1 ",
            "cat sat\tdoc1:1 ",
            "sat the\tdoc1:1 ",
            "the dog\tdoc1:1 ",
            "dog ran\tdoc1:1 ",
        ])
    );
}

#[test]
fn empty_corpus_gives_empty_index() {
    let docs: Vec<Document> = Vec::new();
    let index = build_index(&docs, NgramMode::Unigram);
    assert_eq!(index.render(), "");
    assert_eq!(index.total(), 0);
    assert!(distribute(0).is_empty());
}

#[test]
fn missing_tab_is_a_delimiter_error() {
    let r = parse_document("doc1 the cat sat".as_bytes());
    assert!(matches!(r, Err(ParseError::MissingDelimiter)));
    let r = process_document("".as_bytes(), NgramMode::Bigram);
    assert!(matches!(r, Err(ParseError::MissingDelimiter)));
}

#[test]
fn invalid_utf8_is_an_encoding_error() {
    let bytes: Vec<u8> = vec![b'd', b'\t', 0xff, b'a'];
    assert!(matches!(parse_document(&bytes), Err(ParseError::Encoding)));
}

#[test]
fn id_is_text_before_first_tab() {
    let d = doc("a b\tone\ttwo three");
    assert_eq!(d.id, "a b");
    assert_eq!(d.tokens, strings(&["one", "two", "three"]));
    let d = doc("\tx");
    assert_eq!(d.id, "");
    assert_eq!(d.tokens, strings(&["x"]));
}

#[test]
fn whitespace_inside_raw_tokens_separates() {
    let d = doc("d\ta\tb\nc  ,, Hi?there");
    assert_eq!(d.tokens, strings(&["a", "b", "c", "hi", "there"]));
}

#[test]
fn normalizer_splits_on_punctuation_and_lowercases() {
    assert_eq!(normalize_token("Hello,World!"), strings(&["hello", "world"]));
    assert_eq!(normalize_token("...?!"), Vec::<String>::new());
    assert_eq!(normalize_token(""), Vec::<String>::new());
    assert_eq!(normalize_token("ÉCOLE."), strings(&["école"]));
    assert_eq!(normalize_token("it's"), strings(&["it's"]));
}

#[test]
fn tokenize_flattens_raw_tokens_in_order() {
    let body: Vec<char> = "A.b c  D!e".chars().collect();
    assert_eq!(tokenize(&body), strings(&["a", "b", "c", "d", "e"]));
}

#[test]
fn unigram_counts_sum_over_documents_sharing_an_id() {
    let docs = vec![doc("d\ta b a"), doc("e\ta"), doc("d\ta")];
    let index = build_index(&docs, NgramMode::Unigram);
    let a = "a".to_string();
    assert_eq!(index.count(&a, &"d".to_string()), 3);
    assert_eq!(index.count(&a, &"e".to_string()), 1);
    assert_eq!(index.count(&"b".to_string(), &"d".to_string()), 1);
    assert_eq!(index.count(&"b".to_string(), &"e".to_string()), 0);
    assert_eq!(index.count(&"z".to_string(), &"d".to_string()), 0);
    assert_eq!(lines(&index), strings(&["a\td:3 e:1 ", "b\td:1 "]));
}

#[test]
fn bigrams_are_adjacent_pairs() {
    let d = doc("x\tone two three four");
    let out = emit(&d, NgramMode::Bigram);
    let terms: Vec<String> = out.iter().map(|o| o.term.clone()).collect();
    assert_eq!(terms, strings(&["one two", "two three", "three four"]));
    assert!(out.iter().all(|o| o.doc == "x"));
    let single = doc("y\tonly");
    assert!(emit(&single, NgramMode::Bigram).is_empty());
    let none = doc("z\t");
    assert!(emit(&none, NgramMode::Bigram).is_empty());
    assert_eq!(emit(&single, NgramMode::Unigram).len(), 1);
}

#[test]
fn bigrams_never_span_documents() {
    let docs = vec![doc("x\ta b"), doc("y\tc d"), doc("x\te")];
    let out = emit_all(&docs, NgramMode::Bigram);
    let got: Vec<(String, String)> = out.iter().map(|o| (o.term.clone(), o.doc.clone())).collect();
    assert_eq!(
        got,
        vec![("a b".to_string(), "x".to_string()), ("c d".to_string(), "y".to_string())]
    );
}

#[test]
fn term_totals_match_corpus_occurrences() {
    let docs = vec![doc("p\tx y x"), doc("q\tx"), doc("r\ty x x")];
    let index = build_index(&docs, NgramMode::Unigram);
    let x = "x".to_string();
    let total: u64 = ["p", "q", "r"].iter().map(|d| index.count(&x, &d.to_string())).sum();
    assert_eq!(total, 5);
    assert_eq!(index.total(), 7);
    let bi = build_index(&docs, NgramMode::Bigram);
    let yx = "y x".to_string();
    let total: u64 = ["p", "q", "r"].iter().map(|d| bi.count(&yx, &d.to_string())).sum();
    assert_eq!(total, 2);
    assert_eq!(bi.total(), 4);
}

#[test]
fn rebuilding_gives_the_same_index() {
    let docs = vec![doc("a\tone two one"), doc("b\ttwo three")];
    let first = build_index(&docs, NgramMode::Unigram);
    let second = build_index(&docs, NgramMode::Unigram);
    assert_eq!(first.render(), second.render());

    let pairs = vec![pair("t", "a"), pair("u", "b"), pair("t", "a"), pair("t", "b")];
    let reversed = vec![pair("t", "b"), pair("t", "a"), pair("u", "b"), pair("t", "a")];
    let mut one = InvertedIndex::new();
    one.record_all(&pairs);
    let mut two = InvertedIndex::new();
    two.record_all(&reversed);
    for t in ["t", "u", "v"] {
        for d in ["a", "b", "c"] {
            let (t, d) = (t.to_string(), d.to_string());
            assert_eq!(one.count(&t, &d), two.count(&t, &d));
        }
    }
    assert_eq!(one.count(&"t".to_string(), &"a".to_string()), 2);
}

#[test]
fn record_counts_each_pair() {
    let mut index = InvertedIndex::new();
    index.record("w".to_string(), "d1".to_string());
    index.record("w".to_string(), "d2".to_string());
    index.record("w".to_string(), "d1".to_string());
    index.record("v".to_string(), "d2".to_string());
    assert_eq!(index.total(), 4);
    assert_eq!(index.render(), "w\td1:2 d2:1 \nv\td2:1 \n");
}

#[test]
fn counts_print_in_decimal() {
    let mut index = InvertedIndex::new();
    let pairs: Vec<Occurrence> = (0..12).map(|_| pair("k", "d")).collect();
    index.record_all(&pairs);
    assert_eq!(index.render(), "k\td:12 \n");
    let mut big = InvertedIndex::new();
    let many: Vec<Occurrence> = (0..105).map(|_| pair("k", "d")).collect();
    big.record_all(&many);
    assert_eq!(big.render(), "k\td:105 \n");
}

#[test]
fn partition_is_round_robin() {
    let queues = distribute(10);
    assert_eq!(queues.len(), MAX_WORKERS);
    assert_eq!(queues[0], vec![0, 8]);
    assert_eq!(queues[1], vec![1, 9]);
    for q in 2..8 {
        assert_eq!(queues[q], vec![q]);
    }
    let mut all: Vec<usize> = queues.iter().flatten().copied().collect();
    all.sort();
    assert_eq!(all, (0..10).collect::<Vec<usize>>());
    let small = distribute(3);
    assert_eq!(small, vec![vec![0], vec![1], vec![2]]);
    assert_eq!(round_robin(5, 2), vec![vec![0, 2, 4], vec![1, 3]]);
    assert_eq!(round_robin(0, 3), vec![Vec::<usize>::new(), Vec::new(), Vec::new()]);
}

#[test]
fn worker_count_is_capped() {
    assert_eq!(worker_count(0), 0);
    assert_eq!(worker_count(5), 5);
    assert_eq!(worker_count(8), 8);
    assert_eq!(worker_count(100), 8);
}

#[test]
fn carry_joins_previous_token() {
    let c = Carry::start();
    let (c, g) = c.step(&"one".to_string());
    assert!(g.is_none());
    let (_, g) = c.step(&"two".to_string());
    assert_eq!(g, Some("one two".to_string()));
    assert_eq!(join_tokens(&"a".to_string(), &"b".to_string()), "a b");
}

#[test]
fn process_document_emits_pairs() {
    let r = process_document("id\tA, b".as_bytes(), NgramMode::Unigram);
    match r {
        Ok(v) => {
            let got: Vec<(String, String)> =
                v.iter().map(|o| (o.term.clone(), o.doc.clone())).collect();
            assert_eq!(
                got,
                vec![("a".to_string(), "id".to_string()), ("b".to_string(), "id".to_string())]
            );
        }
        Err(e) => panic!("unexpected error {:?}", e),
    }
}
