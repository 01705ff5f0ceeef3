use query_term::context::{IndexSettings, SearchContext, Synonym};
use query_term::ngram::{find_synonyms, make_ngram};
use query_term::parse_query::located_query_terms_from_string;
use query_term::term::{LocatedQueryTerm, PositionRange};
use query_term::token::{SeparatorKind, Token, TokenKind};
use query_term::typos::number_of_typos_allowed;
use query_term::MAX_WORD_LENGTH;

fn strings(words: &[&str]) -> Vec<String> {
    words.iter().map(|w| w.to_string()).collect()
}

fn settings_with(synonyms: Vec<Synonym>) -> IndexSettings {
    IndexSettings {
        authorize_typos: true,
        min_word_len_one_typo: 5,
        min_word_len_two_typos: 9,
        exact_words: None,
        synonyms,
    }
}

fn words(lemmas: &[&str]) -> Vec<Token> {
    lemmas.iter().map(|l| Token { kind: TokenKind::Word, lemma: l.to_string() }).collect()
}

fn parse_words(ctx: &mut SearchContext, lemmas: &[&str]) -> Vec<LocatedQueryTerm> {
    located_query_terms_from_string(ctx, &words(lemmas), None).unwrap()
}

#[test]
fn ngram_synthesis_with_synonyms() {
    let synonyms = vec![Synonym {
        words: strings(&["new", "york"]),
        alternatives: vec![strings(&["nyc"])],
    }];
    let mut ctx = SearchContext::new(settings_with(synonyms));
    let terms = parse_words(&mut ctx, &["a", "b", "c", "d", "e", "new", "york"]);
    assert_eq!(terms.len(), 7);
    assert_eq!(terms[5].positions, PositionRange { start: 5, end: 5 });
    assert_eq!(terms[6].positions, PositionRange { start: 6, end: 6 });
    let new_handle = ctx.term_interner.get(terms[5].value).original;
    let york_handle = ctx.term_interner.get(terms[6].value).original;
    let policy = number_of_typos_allowed(&ctx);
    let ngram = make_ngram(&mut ctx, &terms[5..7], &policy).unwrap().unwrap();
    assert_eq!(ngram.positions, PositionRange { start: 5, end: 6 });
    let term = ctx.term_interner.get(ngram.value);
    assert_eq!(ctx.word_interner.get(term.original).as_str(), "newyork");
    assert_eq!(term.ngram_words, Some(vec![new_handle, york_handle]));
    assert!(term.is_prefix);
    assert_eq!(term.max_nbr_typos, 0);
    assert!(term.zero_typo.phrase.is_none());
    assert_eq!(term.zero_typo.synonyms.len(), 1);
    let synonym = *term.zero_typo.synonyms.iter().next().unwrap();
    let nyc_handle = ctx.word_interner.find(&"nyc".to_string()).unwrap();
    assert_eq!(ctx.phrase_interner.get(synonym).words, vec![Some(nyc_handle)]);
}

#[test]
fn ngram_without_synonyms_has_none() {
    let mut ctx = SearchContext::new(settings_with(Vec::new()));
    let terms = parse_words(&mut ctx, &["sun", "flower", "x"]);
    let policy = number_of_typos_allowed(&ctx);
    let ngram = make_ngram(&mut ctx, &terms[0..2], &policy).unwrap().unwrap();
    let term = ctx.term_interner.get(ngram.value);
    assert_eq!(ctx.word_interner.get(term.original).as_str(), "sunflower");
    assert!(term.zero_typo.synonyms.is_empty());
    assert!(!term.is_prefix);
    // "sunflower" has 9 bytes: two typos, one less for the second word.
    assert_eq!(term.max_nbr_typos, 1);
    assert_eq!(ngram.positions, PositionRange { start: 0, end: 1 });
}

#[test]
fn ngram_of_three_words_loses_two_typos() {
    let mut ctx = SearchContext::new(settings_with(Vec::new()));
    let terms = parse_words(&mut ctx, &["sun", "flower", "seeds"]);
    let policy = number_of_typos_allowed(&ctx);
    let ngram = make_ngram(&mut ctx, &terms[0..3], &policy).unwrap().unwrap();
    let term = ctx.term_interner.get(ngram.value);
    assert_eq!(ctx.word_interner.get(term.original).as_str(), "sunflowerseeds");
    assert_eq!(term.max_nbr_typos, 0);
    assert!(term.is_prefix);
    assert_eq!(term.ngram_words.as_ref().unwrap().len(), 3);
    assert_eq!(ngram.positions, PositionRange { start: 0, end: 2 });
}

#[test]
fn ngram_of_an_ngram_is_refused() {
    let mut ctx = SearchContext::new(settings_with(Vec::new()));
    let terms = parse_words(&mut ctx, &["a", "b", "c"]);
    let policy = number_of_typos_allowed(&ctx);
    let ab = make_ngram(&mut ctx, &terms[0..2], &policy).unwrap().unwrap();
    let window = vec![ab, terms[2]];
    assert_eq!(make_ngram(&mut ctx, &window, &policy), Ok(None));
    let window = vec![ab];
    assert_eq!(make_ngram(&mut ctx, &window, &policy), Ok(None));
}

#[test]
fn ngram_with_a_phrase_is_refused() {
    let mut ctx = SearchContext::new(settings_with(Vec::new()));
    let tokens = vec![
        Token { kind: TokenKind::Word, lemma: "a".to_string() },
        Token { kind: TokenKind::Separator(SeparatorKind::Soft), lemma: "\"".to_string() },
        Token { kind: TokenKind::Word, lemma: "b".to_string() },
        Token { kind: TokenKind::Separator(SeparatorKind::Soft), lemma: "\"".to_string() },
    ];
    let terms = located_query_terms_from_string(&mut ctx, &tokens, None).unwrap();
    assert_eq!(terms.len(), 2);
    let policy = number_of_typos_allowed(&ctx);
    let words_before = ctx.word_interner.len();
    assert_eq!(make_ngram(&mut ctx, &terms, &policy), Ok(None));
    assert_eq!(ctx.word_interner.len(), words_before);
}

#[test]
fn ngram_of_terms_that_are_not_adjacent_is_refused() {
    let mut ctx = SearchContext::new(settings_with(Vec::new()));
    let terms = parse_words(&mut ctx, &["a", "b", "c"]);
    let policy = number_of_typos_allowed(&ctx);
    let window = vec![terms[0], terms[2]];
    assert_eq!(make_ngram(&mut ctx, &window, &policy), Ok(None));
    let window = vec![terms[1], terms[0]];
    assert_eq!(make_ngram(&mut ctx, &window, &policy), Ok(None));
    let window = vec![terms[0], terms[0]];
    assert_eq!(make_ngram(&mut ctx, &window, &policy), Ok(None));
}

#[test]
fn ngram_as_long_as_a_word_may_be_is_made_and_one_byte_more_is_not() {
    let mut ctx = SearchContext::new(settings_with(Vec::new()));
    let left = "a".repeat(MAX_WORD_LENGTH - 3);
    let terms = parse_words(&mut ctx, &[&left, "bcd", "e"]);
    let policy = number_of_typos_allowed(&ctx);
    let ngram = make_ngram(&mut ctx, &terms[0..2], &policy).unwrap().unwrap();
    let term = ctx.term_interner.get(ngram.value);
    assert_eq!(ctx.word_interner.get(term.original).len(), MAX_WORD_LENGTH);
    let words_before = ctx.word_interner.len();
    let terms_before = ctx.term_interner.len();
    assert_eq!(make_ngram(&mut ctx, &terms[0..3], &policy), Ok(None));
    assert_eq!(ctx.word_interner.len(), words_before);
    assert_eq!(ctx.term_interner.len(), terms_before);
}

#[test]
fn ngram_length_is_counted_in_bytes() {
    let mut ctx = SearchContext::new(settings_with(Vec::new()));
    // 125 letters of two bytes each make 250 bytes.
    let left = "é".repeat(125);
    let terms = parse_words(&mut ctx, &[&left, "x", "y"]);
    let policy = number_of_typos_allowed(&ctx);
    assert_eq!(make_ngram(&mut ctx, &terms[0..2], &policy), Ok(None));
}

#[test]
fn first_synonym_entry_for_the_words_counts() {
    let synonyms = vec![
        Synonym { words: strings(&["a"]), alternatives: vec![strings(&["x"])] },
        Synonym { words: strings(&["a", "b"]), alternatives: vec![strings(&["y", "z"]), vec![]] },
        Synonym { words: strings(&["a", "b"]), alternatives: vec![strings(&["w"])] },
    ];
    assert_eq!(
        find_synonyms(&synonyms, &strings(&["a", "b"])),
        vec![strings(&["y", "z"]), Vec::<String>::new()]
    );
    assert_eq!(find_synonyms(&synonyms, &strings(&["b", "a"])), Vec::<Vec<String>>::new());
    assert_eq!(find_synonyms(&synonyms, &strings(&["a"])), vec![strings(&["x"])]);
}

#[test]
fn synonyms_of_several_words_are_interned_as_phrases() {
    let synonyms = vec![Synonym {
        words: strings(&["n", "y"]),
        alternatives: vec![strings(&["new", "york"]), strings(&["big", "apple"]), strings(&["new", "york"])],
    }];
    let mut ctx = SearchContext::new(settings_with(synonyms));
    let terms = parse_words(&mut ctx, &["n", "y"]);
    let policy = number_of_typos_allowed(&ctx);
    let ngram = make_ngram(&mut ctx, &terms, &policy).unwrap().unwrap();
    let term = ctx.term_interner.get(ngram.value);
    assert_eq!(term.zero_typo.synonyms.len(), 2);
    let texts: Vec<Vec<String>> = term
        .zero_typo
        .synonyms
        .iter()
        .map(|p| {
            ctx.phrase_interner
                .get(*p)
                .words
                .iter()
                .map(|w| ctx.word_interner.get(w.unwrap()).clone())
                .collect()
        })
        .collect();
    assert!(texts.contains(&strings(&["new", "york"])));
    assert!(texts.contains(&strings(&["big", "apple"])));
}
