use query_term::context::{IndexSettings, SearchContext};
use query_term::parse_query::located_query_terms_from_string;
use query_term::term::{Lazy, LocatedQueryTerm, QueryTerm};
use query_term::token::{SeparatorKind, Token, TokenKind};
use query_term::{MAX_TOKEN_COUNT, MAX_WORD_LENGTH};

fn settings() -> IndexSettings {
    IndexSettings {
        authorize_typos: true,
        min_word_len_one_typo: 5,
        min_word_len_two_typos: 9,
        exact_words: None,
        synonyms: Vec::new(),
    }
}

fn word(lemma: &str) -> Token {
    Token { kind: TokenKind::Word, lemma: lemma.to_string() }
}

fn stop_word(lemma: &str) -> Token {
    Token { kind: TokenKind::StopWord, lemma: lemma.to_string() }
}

fn soft(lemma: &str) -> Token {
    Token { kind: TokenKind::Separator(SeparatorKind::Soft), lemma: lemma.to_string() }
}

fn hard(lemma: &str) -> Token {
    Token { kind: TokenKind::Separator(SeparatorKind::Hard), lemma: lemma.to_string() }
}

fn parse(ctx: &mut SearchContext, tokens: &Vec<Token>) -> Vec<LocatedQueryTerm> {
    located_query_terms_from_string(ctx, tokens, None).unwrap()
}

fn term<'a>(ctx: &'a SearchContext, located: &LocatedQueryTerm) -> &'a QueryTerm {
    ctx.term_interner.get(located.value)
}

fn original<'a>(ctx: &'a SearchContext, located: &LocatedQueryTerm) -> &'a str {
    ctx.word_interner.get(term(ctx, located).original).as_str()
}

fn phrase_words(ctx: &SearchContext, located: &LocatedQueryTerm) -> Vec<Option<String>> {
    let handle = term(ctx, located).zero_typo.phrase.unwrap();
    ctx.phrase_interner
        .get(handle)
        .words
        .iter()
        .map(|slot| slot.map(|w| ctx.word_interner.get(w).clone()))
        .collect()
}

#[test]
fn empty_token_stream_gives_no_term() {
    let mut ctx = SearchContext::new(settings());
    let terms = parse(&mut ctx, &Vec::new());
    assert!(terms.is_empty());
    assert_eq!(ctx.word_interner.len(), 0);
    assert_eq!(ctx.phrase_interner.len(), 0);
    assert_eq!(ctx.term_interner.len(), 0);
}

#[test]
fn single_word_is_a_prefix_at_position_zero() {
    let mut ctx = SearchContext::new(settings());
    let terms = parse(&mut ctx, &vec![word("hello")]);
    assert_eq!(terms.len(), 1);
    assert_eq!(terms[0].positions.start, 0);
    assert_eq!(terms[0].positions.end, 0);
    let t = term(&ctx, &terms[0]);
    assert!(t.is_prefix);
    assert_eq!(t.max_nbr_typos, 1);
    assert!(t.ngram_words.is_none());
    assert!(t.zero_typo.phrase.is_none());
    assert!(t.zero_typo.exact.is_none());
    assert!(t.zero_typo.prefix_of.is_empty());
    assert!(t.zero_typo.synonyms.is_empty());
    assert!(t.zero_typo.use_prefix_db.is_none());
    assert!(matches!(t.one_typo, Lazy::Uninit));
    assert!(matches!(t.two_typo, Lazy::Uninit));
    assert_eq!(original(&ctx, &terms[0]), "hello");
}

#[test]
fn simple_terminal_prefix() {
    let mut ctx = SearchContext::new(settings());
    let terms = parse(&mut ctx, &vec![word("good"), word("dog")]);
    assert_eq!(terms.len(), 2);
    assert_eq!((terms[0].positions.start, terms[0].positions.end), (0, 0));
    assert_eq!((terms[1].positions.start, terms[1].positions.end), (1, 1));
    assert!(!term(&ctx, &terms[0]).is_prefix);
    assert!(term(&ctx, &terms[1]).is_prefix);
    assert_eq!(term(&ctx, &terms[0]).max_nbr_typos, 0);
    assert_eq!(term(&ctx, &terms[1]).max_nbr_typos, 0);
    assert_eq!(original(&ctx, &terms[0]), "good");
    assert_eq!(original(&ctx, &terms[1]), "dog");
}

#[test]
fn quoted_phrase() {
    let mut ctx = SearchContext::new(settings());
    let tokens = vec![soft("\""), word("hello"), word("world"), soft("\"")];
    let terms = parse(&mut ctx, &tokens);
    assert_eq!(terms.len(), 1);
    assert_eq!((terms[0].positions.start, terms[0].positions.end), (0, 1));
    let t = term(&ctx, &terms[0]);
    assert!(t.zero_typo.phrase.is_some());
    assert_eq!(t.max_nbr_typos, 0);
    assert!(!t.is_prefix);
    assert!(t.ngram_words.is_none());
    assert_eq!(
        phrase_words(&ctx, &terms[0]),
        vec![Some("hello".to_string()), Some("world".to_string())]
    );
    assert_eq!(original(&ctx, &terms[0]), "hello world");
}

#[test]
fn hard_separator_inside_quotes() {
    let mut ctx = SearchContext::new(settings());
    let tokens = vec![soft("\""), word("a"), hard("."), word("b"), soft("\"")];
    let terms = parse(&mut ctx, &tokens);
    assert_eq!(terms.len(), 2);
    assert_eq!((terms[0].positions.start, terms[0].positions.end), (0, 0));
    assert_eq!((terms[1].positions.start, terms[1].positions.end), (2, 2));
    assert_eq!(phrase_words(&ctx, &terms[0]), vec![Some("a".to_string())]);
    assert_eq!(phrase_words(&ctx, &terms[1]), vec![Some("b".to_string())]);
    assert_eq!(original(&ctx, &terms[0]), "a");
    assert_eq!(original(&ctx, &terms[1]), "b");
}

#[test]
fn unterminated_quote() {
    let mut ctx = SearchContext::new(settings());
    let tokens = vec![soft("\""), word("foo"), word("bar")];
    let terms = parse(&mut ctx, &tokens);
    assert_eq!(terms.len(), 1);
    assert_eq!((terms[0].positions.start, terms[0].positions.end), (0, 1));
    assert_eq!(
        phrase_words(&ctx, &terms[0]),
        vec![Some("foo".to_string()), Some("bar".to_string())]
    );
    assert!(!term(&ctx, &terms[0]).is_prefix);
}

#[test]
fn typo_threshold_crossing() {
    let mut ctx = SearchContext::new(settings());
    let tokens = vec![word("cat"), word("horse"), word("elephants")];
    let terms = parse(&mut ctx, &tokens);
    assert_eq!(terms.len(), 3);
    assert_eq!(term(&ctx, &terms[0]).max_nbr_typos, 0);
    assert_eq!(term(&ctx, &terms[1]).max_nbr_typos, 1);
    assert_eq!(term(&ctx, &terms[2]).max_nbr_typos, 2);
    assert!(!term(&ctx, &terms[0]).is_prefix);
    assert!(!term(&ctx, &terms[1]).is_prefix);
    assert!(term(&ctx, &terms[2]).is_prefix);
    assert_eq!(terms[2].positions.start, 2);
}

#[test]
fn leading_hard_separator_leaves_first_word_at_zero() {
    let mut ctx = SearchContext::new(settings());
    let tokens = vec![hard("."), word("hello"), hard("."), word("world")];
    let terms = parse(&mut ctx, &tokens);
    assert_eq!(terms.len(), 2);
    assert_eq!(terms[0].positions.start, 0);
    assert_eq!(terms[1].positions.start, 2);
}

#[test]
fn soft_separator_takes_no_position() {
    let mut ctx = SearchContext::new(settings());
    let tokens = vec![word("hello"), soft(" "), word("world")];
    let terms = parse(&mut ctx, &tokens);
    assert_eq!(terms.len(), 2);
    assert_eq!(terms[0].positions.start, 0);
    assert_eq!(terms[1].positions.start, 1);
}

#[test]
fn stop_word_takes_a_position_and_gives_no_term() {
    let mut ctx = SearchContext::new(settings());
    let tokens = vec![stop_word("the"), word("dog"), stop_word("of")];
    let terms = parse(&mut ctx, &tokens);
    assert_eq!(terms.len(), 1);
    assert_eq!(terms[0].positions.start, 1);
    assert!(!term(&ctx, &terms[0]).is_prefix);
    assert_eq!(ctx.word_interner.len(), 1);
}

#[test]
fn stop_word_in_a_phrase_is_an_empty_slot() {
    let mut ctx = SearchContext::new(settings());
    let tokens = vec![soft("\""), word("lord"), stop_word("of"), word("rings"), soft("\"")];
    let terms = parse(&mut ctx, &tokens);
    assert_eq!(terms.len(), 1);
    assert_eq!((terms[0].positions.start, terms[0].positions.end), (0, 2));
    assert_eq!(
        phrase_words(&ctx, &terms[0]),
        vec![Some("lord".to_string()), None, Some("rings".to_string())]
    );
    assert_eq!(original(&ctx, &terms[0]), "lord rings");
}

#[test]
fn phrase_of_stop_words_only_is_emitted() {
    let mut ctx = SearchContext::new(settings());
    let tokens = vec![soft("\""), stop_word("the"), soft("\"")];
    let terms = parse(&mut ctx, &tokens);
    assert_eq!(terms.len(), 1);
    assert_eq!(phrase_words(&ctx, &terms[0]), vec![None]);
    assert_eq!(original(&ctx, &terms[0]), "");
}

#[test]
fn empty_quotes_give_no_term() {
    let mut ctx = SearchContext::new(settings());
    let tokens = vec![soft("\"\""), word("x")];
    let terms = parse(&mut ctx, &tokens);
    assert_eq!(terms.len(), 1);
    assert!(term(&ctx, &terms[0]).is_prefix);
    assert!(term(&ctx, &terms[0]).zero_typo.phrase.is_none());
}

#[test]
fn several_quotes_in_one_separator() {
    let mut ctx = SearchContext::new(settings());
    // "foo""" bar : the run of three quotes closes the phrase and leaves none open.
    let tokens = vec![soft("\""), word("foo"), soft("\"\"\""), word("bar")];
    let terms = parse(&mut ctx, &tokens);
    assert_eq!(terms.len(), 2);
    assert!(term(&ctx, &terms[0]).zero_typo.phrase.is_some());
    assert!(term(&ctx, &terms[1]).zero_typo.phrase.is_none());
    assert!(term(&ctx, &terms[1]).is_prefix);
    // "foo"" bar : the run of two quotes closes the phrase and opens the next.
    let mut ctx = SearchContext::new(settings());
    let tokens = vec![soft("\""), word("foo"), soft("\"\""), word("bar")];
    let terms = parse(&mut ctx, &tokens);
    assert_eq!(terms.len(), 2);
    assert!(term(&ctx, &terms[0]).zero_typo.phrase.is_some());
    assert!(term(&ctx, &terms[1]).zero_typo.phrase.is_some());
    assert_eq!((terms[1].positions.start, terms[1].positions.end), (1, 1));
}

#[test]
fn tokens_without_text_and_unknown_tokens_are_skipped() {
    let mut ctx = SearchContext::new(settings());
    let tokens = vec![
        word(""),
        word("a"),
        Token { kind: TokenKind::Unknown, lemma: "?".to_string() },
        word("b"),
        word(""),
    ];
    let terms = parse(&mut ctx, &tokens);
    assert_eq!(terms.len(), 2);
    assert_eq!(terms[0].positions.start, 0);
    assert_eq!(terms[1].positions.start, 1);
    // "b" is followed by a token, even if that one has no text.
    assert!(!term(&ctx, &terms[1]).is_prefix);
}

#[test]
fn words_limit_stops_the_parser() {
    let mut ctx = SearchContext::new(settings());
    let tokens = vec![word("a"), word("b"), word("c")];
    let terms = located_query_terms_from_string(&mut ctx, &tokens, Some(2)).unwrap();
    assert_eq!(terms.len(), 2);
    assert_eq!(original(&ctx, &terms[1]), "b");
    assert!(!term(&ctx, &terms[1]).is_prefix);
    let mut ctx = SearchContext::new(settings());
    let terms = located_query_terms_from_string(&mut ctx, &tokens, Some(0)).unwrap();
    assert!(terms.is_empty());
    let mut ctx = SearchContext::new(settings());
    let terms = located_query_terms_from_string(&mut ctx, &tokens, Some(3)).unwrap();
    assert_eq!(terms.len(), 3);
    assert!(term(&ctx, &terms[2]).is_prefix);
}

#[test]
fn words_limit_drops_an_open_phrase() {
    let mut ctx = SearchContext::new(settings());
    let tokens = vec![word("a"), soft("\""), word("b"), word("c")];
    let terms = located_query_terms_from_string(&mut ctx, &tokens, Some(1)).unwrap();
    assert_eq!(terms.len(), 1);
    assert_eq!(original(&ctx, &terms[0]), "a");
}

#[test]
fn at_most_max_token_count_tokens_are_read() {
    let mut ctx = SearchContext::new(settings());
    let mut tokens = Vec::new();
    for i in 0..(MAX_TOKEN_COUNT + 5) {
        tokens.push(word(&format!("w{}", i % 7)));
    }
    let terms = parse(&mut ctx, &tokens);
    assert_eq!(terms.len(), MAX_TOKEN_COUNT);
    let last = &terms[MAX_TOKEN_COUNT - 1];
    assert_eq!(last.positions.start, 999);
    assert!(term(&ctx, last).is_prefix);
    assert!(!term(&ctx, &terms[MAX_TOKEN_COUNT - 2]).is_prefix);
}

#[test]
fn positions_do_not_decrease() {
    let mut ctx = SearchContext::new(settings());
    let tokens = vec![
        word("a"),
        soft(" \""),
        word("b"),
        stop_word("the"),
        word("c"),
        hard(". "),
        word("d"),
        soft("\" "),
        word("e"),
        hard("."),
        word("f"),
    ];
    let terms = parse(&mut ctx, &tokens);
    assert_eq!(terms.len(), 5);
    let spans: Vec<(u16, u16)> =
        terms.iter().map(|t| (t.positions.start, t.positions.end)).collect();
    assert_eq!(spans, vec![(0, 0), (1, 3), (5, 5), (6, 6), (8, 8)]);
    let prefixes: Vec<bool> = terms.iter().map(|t| term(&ctx, t).is_prefix).collect();
    assert_eq!(prefixes, vec![false, false, false, false, true]);
}

#[test]
fn same_tokens_give_the_same_terms_in_fresh_contexts() {
    let tokens = vec![word("new"), soft(" \""), word("york"), word("city"), soft("\""), word("new")];
    let mut first = SearchContext::new(settings());
    let mut second = SearchContext::new(settings());
    let a = parse(&mut first, &tokens);
    let b = parse(&mut second, &tokens);
    assert_eq!(a, b);
    for (x, y) in a.iter().zip(b.iter()) {
        assert_eq!(original(&first, x), original(&second, y));
        assert_eq!(term(&first, x).is_prefix, term(&second, y).is_prefix);
        assert_eq!(term(&first, x).max_nbr_typos, term(&second, y).max_nbr_typos);
    }
}

#[test]
fn equal_terms_share_a_handle() {
    let mut ctx = SearchContext::new(settings());
    let tokens = vec![word("a"), word("a"), word("a")];
    let terms = parse(&mut ctx, &tokens);
    assert_eq!(terms.len(), 3);
    assert_eq!(terms[0].value, terms[1].value);
    assert_ne!(terms[1].value, terms[2].value);
    assert_eq!(ctx.word_interner.len(), 1);
    assert_eq!(ctx.term_interner.len(), 2);
}

#[test]
fn word_of_the_longest_length_keeps_its_typos() {
    let mut ctx = SearchContext::new(settings());
    let longest = "a".repeat(MAX_WORD_LENGTH);
    let too_long = "a".repeat(MAX_WORD_LENGTH + 1);
    let terms = parse(&mut ctx, &vec![word(&longest), word(&too_long), word("x")]);
    assert_eq!(terms.len(), 3);
    assert_eq!(term(&ctx, &terms[0]).max_nbr_typos, 2);
    assert_eq!(original(&ctx, &terms[0]), longest);
    assert_eq!(term(&ctx, &terms[1]).max_nbr_typos, 0);
    assert_eq!(original(&ctx, &terms[1]), too_long);
}

#[test]
fn parser_fails_when_the_word_interner_is_full() {
    let mut ctx = SearchContext::new(settings());
    for i in 0..query_term::interner::HANDLE_CAPACITY {
        ctx.insert_word(format!("{:x}", i)).unwrap();
    }
    assert_eq!(ctx.word_interner.len(), query_term::interner::HANDLE_CAPACITY);
    // a word that is interned still parses
    let terms = located_query_terms_from_string(&mut ctx, &vec![word("ff")], None).unwrap();
    assert_eq!(terms.len(), 1);
    assert_eq!(original(&ctx, &terms[0]), "ff");
    // a new word finds no handle
    let failed = located_query_terms_from_string(&mut ctx, &vec![word("new")], None);
    assert_eq!(failed, Err(query_term::QueryError::InternerOverflow));
    // a phrase needs a word that stands for it
    let tokens = vec![soft("\""), word("a"), word("b")];
    let failed = located_query_terms_from_string(&mut ctx, &tokens, None);
    assert_eq!(failed, Err(query_term::QueryError::InternerOverflow));
}

#[test]
fn a_second_query_shares_the_interned_values() {
    let mut ctx = SearchContext::new(settings());
    let first = parse(&mut ctx, &vec![word("hello"), word("world")]);
    let second = parse(&mut ctx, &vec![word("hello"), word("there")]);
    assert_eq!(first[0].value, second[0].value);
    assert_ne!(first[1].value, second[1].value);
    assert_eq!(ctx.word_interner.len(), 3);
    assert_eq!(ctx.term_interner.len(), 3);
}
