use query_term::context::{
    partially_initialized_term_from_word, IndexSettings, SearchContext,
};
use query_term::interner::{Interner, HANDLE_CAPACITY};
use query_term::phrase::{description, PhraseBuilder};
use query_term::term::{Lazy, Phrase, PositionRange};
use query_term::text::{byte_length, contains_char, count_quotes};
use query_term::token::{Token, TokenKind};
use query_term::typos::{number_of_typos_allowed, TypoPolicy};
use query_term::{QueryError, MAX_WORD_LENGTH};

fn settings() -> IndexSettings {
    IndexSettings {
        authorize_typos: true,
        min_word_len_one_typo: 5,
        min_word_len_two_typos: 9,
        exact_words: None,
        synonyms: Vec::new(),
    }
}

#[test]
fn typos_follow_the_length_in_bytes() {
    let policy = TypoPolicy {
        authorize_typos: true,
        min_len_one_typo: 5,
        min_len_two_typos: 9,
        exact_words: None,
    };
    assert_eq!(policy.typos(""), 0);
    assert_eq!(policy.typos("good"), 0);
    assert_eq!(policy.typos("horse"), 1);
    assert_eq!(policy.typos("elephant"), 1);
    assert_eq!(policy.typos("elephants"), 2);
    // four letters, five bytes
    assert_eq!(policy.typos("caf\u{e9}s"), 1);
    assert_eq!(policy.typos("\u{e9}\u{e9}"), 0);
}

#[test]
fn typos_are_switched_off_as_a_whole() {
    let policy = TypoPolicy {
        authorize_typos: false,
        min_len_one_typo: 5,
        min_len_two_typos: 9,
        exact_words: None,
    };
    assert_eq!(policy.typos("elephants"), 0);
    assert_eq!(policy.typos("horse"), 0);
}

#[test]
fn exact_words_bear_no_typo() {
    let policy = TypoPolicy {
        authorize_typos: true,
        min_len_one_typo: 5,
        min_len_two_typos: 9,
        exact_words: Some(vec!["elephants".to_string(), "horse".to_string()]),
    };
    assert_eq!(policy.typos("elephants"), 0);
    assert_eq!(policy.typos("horse"), 0);
    assert_eq!(policy.typos("horses"), 1);
    assert_eq!(policy.typos("crocodiles"), 2);
}

#[test]
fn thresholds_in_the_other_order() {
    let policy = TypoPolicy {
        authorize_typos: true,
        min_len_one_typo: 9,
        min_len_two_typos: 5,
        exact_words: None,
    };
    assert_eq!(policy.typos("horse"), 0);
    assert_eq!(policy.typos("elephants"), 2);
}

#[test]
fn policy_is_read_from_the_settings() {
    let mut s = settings();
    s.min_word_len_one_typo = 3;
    s.min_word_len_two_typos = 4;
    s.exact_words = Some(vec!["dogs".to_string()]);
    let ctx = SearchContext::new(s);
    let policy = number_of_typos_allowed(&ctx);
    assert!(policy.authorize_typos);
    assert_eq!(policy.min_len_one_typo, 3);
    assert_eq!(policy.min_len_two_typos, 4);
    assert_eq!(policy.exact_words, Some(vec!["dogs".to_string()]));
    assert_eq!(policy.typos("do"), 0);
    assert_eq!(policy.typos("dog"), 1);
    assert_eq!(policy.typos("dogs"), 0);
    assert_eq!(policy.typos("cats"), 2);
}

#[test]
fn term_of_a_word() {
    let mut ctx = SearchContext::new(settings());
    let term = partially_initialized_term_from_word(&mut ctx, "horse", 1, true).unwrap();
    assert_eq!(ctx.word_interner.get(term.original).as_str(), "horse");
    assert!(term.ngram_words.is_none());
    assert!(term.is_prefix);
    assert_eq!(term.max_nbr_typos, 1);
    assert!(term.zero_typo.phrase.is_none());
    assert!(term.zero_typo.exact.is_none());
    assert!(term.zero_typo.prefix_of.is_empty());
    assert!(term.zero_typo.synonyms.is_empty());
    assert!(term.zero_typo.use_prefix_db.is_none());
    assert!(matches!(term.one_typo, Lazy::Uninit));
    assert!(matches!(term.two_typo, Lazy::Uninit));
    assert_eq!(ctx.term_interner.len(), 0);
}

#[test]
fn term_of_a_word_that_is_too_long_bears_no_typo() {
    let mut ctx = SearchContext::new(settings());
    let longest = "z".repeat(MAX_WORD_LENGTH);
    let term = partially_initialized_term_from_word(&mut ctx, &longest, 2, false).unwrap();
    assert_eq!(term.max_nbr_typos, 2);
    let too_long = "z".repeat(MAX_WORD_LENGTH + 1);
    let term = partially_initialized_term_from_word(&mut ctx, &too_long, 2, true).unwrap();
    assert_eq!(term.max_nbr_typos, 0);
    assert!(term.is_prefix);
    assert_eq!(ctx.word_interner.get(term.original).len(), MAX_WORD_LENGTH + 1);
}

#[test]
fn interner_gives_one_handle_to_equal_values() {
    let mut words: Interner<String> = Interner::new();
    let a = words.insert("a".to_string()).unwrap();
    let b = words.insert("b".to_string()).unwrap();
    let a_again = words.insert("a".to_string()).unwrap();
    assert_eq!(a, 0);
    assert_eq!(b, 1);
    assert_eq!(a_again, a);
    assert_eq!(words.len(), 2);
    assert_eq!(words.get(a).as_str(), "a");
    assert_eq!(words.get(b).as_str(), "b");
    assert_eq!(words.find(&"b".to_string()), Some(1));
    assert_eq!(words.find(&"c".to_string()), None);
}

#[test]
fn phrases_are_equal_by_their_slots() {
    let mut phrases: Interner<Phrase> = Interner::new();
    let first = phrases.insert(Phrase { words: vec![Some(1), None, Some(2)] }).unwrap();
    let second = phrases.insert(Phrase { words: vec![Some(1), Some(2)] }).unwrap();
    let third = phrases.insert(Phrase { words: vec![Some(1), None, Some(2)] }).unwrap();
    let fourth = phrases.insert(Phrase { words: vec![Some(1), None, Some(3)] }).unwrap();
    assert_eq!(first, third);
    assert_ne!(first, second);
    assert_ne!(first, fourth);
    assert_eq!(phrases.len(), 3);
}

#[test]
fn interner_overflows_when_its_handles_are_used_up() {
    let mut phrases: Interner<Phrase> = Interner::new();
    for i in 0..HANDLE_CAPACITY {
        let slot = Some((i % 65536) as u16);
        let second = if i < 65536 { None } else { Some(0) };
        assert_eq!(phrases.insert(Phrase { words: vec![slot, second] }), Ok(i as u16));
    }
    assert_eq!(phrases.len(), HANDLE_CAPACITY);
    assert_eq!(
        phrases.insert(Phrase { words: vec![None, None, None] }),
        Err(QueryError::InternerOverflow)
    );
    // a value that is held still finds its handle
    assert_eq!(phrases.insert(Phrase { words: vec![Some(7), None] }), Ok(7));
    assert_eq!(phrases.len(), HANDLE_CAPACITY);
}

#[test]
fn phrase_builder_gathers_slots() {
    let mut ctx = SearchContext::new(settings());
    let mut builder = PhraseBuilder::empty();
    assert!(builder.is_empty());
    assert_eq!((builder.start, builder.end), (u16::MAX, u16::MAX));
    let the = Token { kind: TokenKind::StopWord, lemma: "the".to_string() };
    let lord = Token { kind: TokenKind::Word, lemma: "lord".to_string() };
    let rings = Token { kind: TokenKind::Word, lemma: "rings".to_string() };
    builder.push_word(&mut ctx, &lord, 3).unwrap();
    assert!(!builder.is_empty());
    assert_eq!((builder.start, builder.end), (3, 3));
    builder.push_word(&mut ctx, &the, 4).unwrap();
    builder.push_word(&mut ctx, &rings, 5).unwrap();
    assert_eq!((builder.start, builder.end), (3, 5));
    assert_eq!(builder.words, vec![Some(0), None, Some(1)]);
    let located = builder.build(&mut ctx).unwrap().unwrap();
    assert_eq!(located.positions, PositionRange { start: 3, end: 5 });
    let term = ctx.term_interner.get(located.value);
    assert_eq!(term.max_nbr_typos, 0);
    assert!(!term.is_prefix);
    assert!(term.ngram_words.is_none());
    let phrase = term.zero_typo.phrase.unwrap();
    assert_eq!(ctx.phrase_interner.get(phrase).words, vec![Some(0), None, Some(1)]);
    assert_eq!(ctx.word_interner.get(term.original).as_str(), "lord rings");
    assert_eq!(description(&ctx, phrase), "lord rings");
}

#[test]
fn empty_phrase_builder_builds_nothing() {
    let mut ctx = SearchContext::new(settings());
    let builder = PhraseBuilder::empty();
    assert_eq!(builder.build(&mut ctx), Ok(None));
    assert_eq!(ctx.phrase_interner.len(), 0);
    assert_eq!(ctx.word_interner.len(), 0);
    assert_eq!(ctx.term_interner.len(), 0);
}

#[test]
fn quotes_and_bytes_are_counted() {
    assert_eq!(count_quotes(""), 0);
    assert_eq!(count_quotes("\""), 1);
    assert_eq!(count_quotes(" \"a\" \"\u{e9}\" "), 4);
    assert_eq!(count_quotes("'`\u{201c}\u{201d}"), 0);
    assert_eq!(byte_length("caf\u{e9}"), 5);
    assert_eq!(byte_length(""), 0);
    assert!(contains_char("a.b", '.'));
    assert!(!contains_char("ab", '.'));
    assert!(!contains_char("", '.'));
}
