use crate::context::{typos_for_length, word_term, Interners};
use crate::parse_query::{
    consumed, lemma_closed_phrase_grows, lemma_run_grows, limit_reached, parsed,
    position_after_hard_separator, run, ParserState,
};
use crate::term::LocatedQueryTerm;
use crate::text::quote_count;
use crate::token::{SeparatorKind, TokenKind, TokenView};
use crate::typos::TypoPolicyView;
use crate::MAX_TOKEN_COUNT;
use vstd::prelude::*;

verus! {

/// A position as a number: -1 for the starting value, before any word.
pub open spec fn reached(p: u16) -> int {
    if p == u16::MAX {
        -1
    } else {
        p as int
    }
}

/// No term ends before it starts, and each starts after the end of the
/// one before it.
pub open spec fn ordered(located: Seq<LocatedQueryTerm>) -> bool {
    &&& forall|i: int|
        0 <= i < located.len() ==> (#[trigger] located[i]).positions.start
            <= located[i].positions.end
    &&& forall|i: int, j: int|
        0 <= i < j < located.len() ==> (#[trigger] located[i]).positions.end
            < (#[trigger] located[j]).positions.start
}

/// The end of the last term, -1 where there is none.
pub open spec fn last_end(located: Seq<LocatedQueryTerm>) -> int {
    if located.len() == 0 {
        -1
    } else {
        located.last().positions.end as int
    }
}

/// Whether a phrase is open that holds a slot.
pub open spec fn holds_phrase(s: ParserState) -> bool {
    s.phrase matches Some(b) && b.words.len() > 0
}

/// What holds of the positions after `k` tokens.
pub open spec fn positions_inv(s: ParserState, k: nat, words_limit: Option<usize>) -> bool {
    &&& reached(s.position) < k
    &&& ordered(s.located)
    &&& last_end(s.located) <= reached(s.position)
    &&& s.located.len() + (if holds_phrase(s) {
        1int
    } else {
        0int
    }) <= k
    &&& words_limit matches Some(limit) ==> s.located.len() <= limit && (holds_phrase(s) && !s.done
        ==> s.located.len() < limit)
    &&& s.phrase matches Some(b) ==> b.words.len() > 0 ==> {
        &&& last_end(s.located) < b.start
        &&& b.start + b.words.len() - 1 == b.end
        &&& b.end == reached(s.position)
    }
}

/// Closing the phrase keeps the positions in order and emits at most
/// one term.
proof fn lemma_closed_phrase_positions(s: ParserState, k: nat, words_limit: Option<usize>)
    requires
        positions_inv(s, k, words_limit),
        !s.done,
    ensures
        ordered(s.closed_phrase().located),
        last_end(s.closed_phrase().located) <= reached(s.position),
        s.closed_phrase().located.len() == s.located.len() + (if holds_phrase(s) {
            1int
        } else {
            0int
        }),
        s.closed_phrase().phrase is None,
        s.closed_phrase().position == s.position,
        s.closed_phrase().done == s.done,
        s.located.is_prefix_of(s.closed_phrase().located),
{
}

/// One step keeps what holds of the positions.
proof fn lemma_step_positions(
    s: ParserState,
    k: nat,
    token: TokenView,
    has_next: bool,
    words_limit: Option<usize>,
    policy: TypoPolicyView,
)
    requires
        positions_inv(s, k, words_limit),
        k < MAX_TOKEN_COUNT,
    ensures
        positions_inv(s.step(token, has_next, words_limit, policy), k + 1, words_limit),
{
    let next = s.step(token, has_next, words_limit, policy);
    if !s.done && token.lemma.len() > 0 && !limit_reached(s.located.len(), words_limit) {
        match token.kind {
            TokenKind::Word => {
                if s.phrase is None {
                    assert(next.located.drop_last() =~= s.located);
                }
            },
            TokenKind::Separator(kind) => {
                lemma_closed_phrase_positions(s, k, words_limit);
                if kind == SeparatorKind::Hard {
                    let moved = ParserState {
                        position: position_after_hard_separator(s.position),
                        ..s
                    };
                    let broken = moved.after_hard_break();
                    assert(broken == ParserState { position: moved.position, ..s.after_hard_break() });
                    lemma_closed_phrase_positions(broken, k + 1, words_limit);
                }
            },
            _ => {},
        }
    }
}

/// What holds of the positions holds after any number of tokens.
proof fn lemma_run_positions(
    c: Interners,
    tokens: Seq<TokenView>,
    k: nat,
    words_limit: Option<usize>,
    policy: TypoPolicyView,
)
    requires
        k <= MAX_TOKEN_COUNT,
    ensures
        positions_inv(run(c, tokens, k, words_limit, policy), k, words_limit),
    decreases k,
{
    if k > 0 {
        lemma_run_positions(c, tokens, (k - 1) as nat, words_limit, policy);
        lemma_step_positions(
            run(c, tokens, (k - 1) as nat, words_limit, policy),
            (k - 1) as nat,
            tokens[k - 1],
            k < tokens.len(),
            words_limit,
            policy,
        );
    }
}

/// The parser emits no more terms than it read tokens, no more than
/// `MAX_TOKEN_COUNT`, and no more than the limit it was given.
pub proof fn lemma_emitted_count(
    c: Interners,
    tokens: Seq<TokenView>,
    words_limit: Option<usize>,
    policy: TypoPolicyView,
)
    ensures
        parsed(c, tokens, words_limit, policy).located.len() <= tokens.len(),
        parsed(c, tokens, words_limit, policy).located.len() <= MAX_TOKEN_COUNT,
        words_limit matches Some(limit) ==> parsed(c, tokens, words_limit, policy).located.len()
            <= limit,
{
    let read = consumed(tokens);
    lemma_run_positions(c, read, read.len(), words_limit, policy);
    let s = run(c, read, read.len(), words_limit, policy);
    if !s.done {
        lemma_closed_phrase_positions(s, read.len(), words_limit);
    }
}

/// The terms come out in the order of their positions: none ends before
/// it starts, and each starts after the end of the one before it.
pub proof fn lemma_positions_ordered(
    c: Interners,
    tokens: Seq<TokenView>,
    words_limit: Option<usize>,
    policy: TypoPolicyView,
)
    ensures
        ordered(parsed(c, tokens, words_limit, policy).located),
{
    let read = consumed(tokens);
    lemma_run_positions(c, read, read.len(), words_limit, policy);
    let s = run(c, read, read.len(), words_limit, policy);
    if !s.done {
        lemma_closed_phrase_positions(s, read.len(), words_limit);
    }
}

/// Whether a phrase holds a word: a slot that is filled.
pub open spec fn has_word(words: Seq<Option<u16>>) -> bool {
    exists|j: int| 0 <= j < words.len() && (#[trigger] words[j]) is Some
}

/// Whether the step from `s` to `next` emits a phrase that holds slots
/// but no word: one made of stop words alone.
pub open spec fn closes_wordless(s: ParserState, next: ParserState) -> bool {
    &&& s.phrase matches Some(b) && b.words.len() > 0 && !has_word(b.words)
    &&& next.located.len() > s.located.len()
}

/// Whether one of the first `k` steps emits a phrase made of stop words
/// alone.
pub open spec fn wordless_phrase_emitted(
    c: Interners,
    tokens: Seq<TokenView>,
    k: nat,
    words_limit: Option<usize>,
    policy: TypoPolicyView,
) -> bool
    decreases k,
{
    if k == 0 {
        false
    } else {
        ||| wordless_phrase_emitted(c, tokens, (k - 1) as nat, words_limit, policy)
        ||| closes_wordless(
            run(c, tokens, (k - 1) as nat, words_limit, policy),
            run(c, tokens, k, words_limit, policy),
        )
    }
}

/// Whether the parser emits, on these tokens, a phrase made of stop
/// words alone.
pub open spec fn emits_wordless_phrase(
    c: Interners,
    tokens: Seq<TokenView>,
    words_limit: Option<usize>,
    policy: TypoPolicyView,
) -> bool {
    let read = consumed(tokens);
    let end = run(c, read, read.len(), words_limit, policy);
    wordless_phrase_emitted(c, read, read.len(), words_limit, policy) || closes_wordless(
        end,
        end.finished(),
    )
}

/// Whether the step from `s` on `token` emits a word as a prefix: the
/// token is the last one, a word with text, outside quotes, and the
/// limit is not reached.
pub open spec fn emits_prefix(
    s: ParserState,
    token: TokenView,
    has_next: bool,
    words_limit: Option<usize>,
) -> bool {
    &&& !has_next
    &&& !s.done
    &&& token.lemma.len() > 0
    &&& !limit_reached(s.located.len(), words_limit)
    &&& token.kind == TokenKind::Word
    &&& s.phrase is None
}

/// Whether the parser ends on a word that it emits as a prefix: the
/// last token that is read is a word with text, outside quotes, and the
/// limit is not reached before it.
pub open spec fn ends_on_free_word(
    c: Interners,
    tokens: Seq<TokenView>,
    words_limit: Option<usize>,
    policy: TypoPolicyView,
) -> bool {
    let read = consumed(tokens);
    read.len() > 0 && emits_prefix(
        run(c, read, (read.len() - 1) as nat, words_limit, policy),
        read.last(),
        false,
        words_limit,
    )
}

/// What holds of the term of a phrase: it is no prefix and bears no
/// typo, and its phrase has one slot for each position it covers.
pub open spec fn phrase_term_ok(c: Interners, t: LocatedQueryTerm, with_word: bool) -> bool {
    let term = c.terms[t.value as int];
    term.zero_typo.phrase matches Some(p) ==> {
        &&& !term.is_prefix
        &&& term.max_nbr_typos == 0
        &&& (p as int) < c.phrases.len()
        &&& c.phrases[p as int].len() == t.positions.end - t.positions.start + 1
        &&& with_word ==> has_word(c.phrases[p as int])
    }
}

/// What holds of the emitted terms between two tokens. `prefix` says
/// whether the last step emitted a prefix, `with_word` whether every
/// phrase emitted so far holds a word.
pub open spec fn payload_inv(s: ParserState, prefix: bool, with_word: bool) -> bool {
    &&& s.interners.valid()
    &&& s.interners.fits()
    &&& s.phrase matches Some(b) ==> s.interners.phrase_valid(b.words)
    &&& forall|i: int|
        0 <= i < s.located.len() ==> {
            &&& ((#[trigger] s.located[i]).value as int) < s.interners.terms.len()
            &&& phrase_term_ok(s.interners, s.located[i], with_word)
            &&& s.interners.terms[s.located[i].value as int].max_nbr_typos <= 2
            &&& s.interners.terms[s.located[i].value as int].is_prefix ==> prefix && i
                == s.located.len() - 1
        }
    &&& prefix ==> s.located.len() > 0 && s.interners.terms[s.located.last().value as int].is_prefix
        && s.phrase is None
}

/// What holds of the emitted terms still holds once the interners have
/// grown.
proof fn lemma_payload_grown(s: ParserState, c: Interners, with_word: bool)
    requires
        payload_inv(s, false, with_word),
        s.interners.grows_to(c),
    ensures
        forall|i: int|
            0 <= i < s.located.len() ==> {
                &&& ((#[trigger] s.located[i]).value as int) < c.terms.len()
                &&& phrase_term_ok(c, s.located[i], with_word)
                &&& c.terms[s.located[i].value as int].max_nbr_typos <= 2
                &&& !c.terms[s.located[i].value as int].is_prefix
            },
{
    assert forall|i: int| 0 <= i < s.located.len() implies {
        &&& ((#[trigger] s.located[i]).value as int) < c.terms.len()
        &&& phrase_term_ok(c, s.located[i], with_word)
        &&& c.terms[s.located[i].value as int].max_nbr_typos <= 2
        &&& !c.terms[s.located[i].value as int].is_prefix
    } by {
        let v = s.located[i].value as int;
        assert(c.terms[v] == s.interners.terms[v]);
        assert(phrase_term_ok(s.interners, s.located[i], with_word));
        if let Some(p) = s.interners.terms[v].zero_typo.phrase {
            assert(c.phrases[p as int] == s.interners.phrases[p as int]);
        }
    }
}

/// The open phrase has one slot for each position from its first to
/// its last.
pub open spec fn phrase_spans(s: ParserState) -> bool {
    s.phrase matches Some(b) ==> b.words.len() > 0 ==> b.start + b.words.len() - 1 == b.end
}

/// Closing the phrase keeps what holds of the emitted terms.
proof fn lemma_closed_phrase_payload(s: ParserState, with_word: bool)
    requires
        payload_inv(s, false, with_word),
        phrase_spans(s),
        s.closed_phrase().interners.fits(),
    ensures
        payload_inv(s.closed_phrase(), false, with_word && !closes_wordless(s, s.closed_phrase())),
{
    let next = s.closed_phrase();
    let now = with_word && !closes_wordless(s, next);
    if let Some(b) = s.phrase {
        b.lemma_built(s.interners);
        lemma_payload_grown(s, next.interners, with_word);
        if b.words.len() > 0 {
            let t = b.built(s.interners).unwrap();
            assert(next.located == s.located.push(t));
            assert(phrase_term_ok(next.interners, t, now));
            assert forall|i: int| 0 <= i < next.located.len() implies {
                &&& ((#[trigger] next.located[i]).value as int) < next.interners.terms.len()
                &&& phrase_term_ok(next.interners, next.located[i], now)
                &&& next.interners.terms[next.located[i].value as int].max_nbr_typos <= 2
                &&& !next.interners.terms[next.located[i].value as int].is_prefix
            } by {
                if i < s.located.len() {
                    assert(next.located[i] == s.located[i]);
                }
            }
        }
    }
}

/// One step keeps what holds of the emitted terms, where the interners
/// still fit after it.
proof fn lemma_step_payload(
    s: ParserState,
    k: nat,
    token: TokenView,
    has_next: bool,
    words_limit: Option<usize>,
    policy: TypoPolicyView,
    with_word: bool,
)
    requires
        payload_inv(s, false, with_word),
        positions_inv(s, k, words_limit),
        s.step(token, has_next, words_limit, policy).interners.fits(),
    ensures
        payload_inv(
            s.step(token, has_next, words_limit, policy),
            emits_prefix(s, token, has_next, words_limit),
            with_word && !closes_wordless(s, s.step(token, has_next, words_limit, policy)),
        ),
{
    let next = s.step(token, has_next, words_limit, policy);
    let prefix = emits_prefix(s, token, has_next, words_limit);
    let now = with_word && !closes_wordless(s, next);
    let c = s.interners;
    if !s.done && token.lemma.len() > 0 && !limit_reached(s.located.len(), words_limit) {
        match token.kind {
            TokenKind::Word | TokenKind::StopWord => {
                c.lemma_with_word(token.lemma);
                if s.phrase is Some {
                    lemma_payload_grown(s, next.interners, with_word);
                    c.lemma_grown(next.interners);
                } else if token.kind == TokenKind::Word {
                    let c1 = c.with_word(token.lemma);
                    let term = word_term(
                        c.word_handle(token.lemma),
                        typos_for_length(token.lemma, policy.typos(token.lemma)),
                        !has_next,
                    );
                    c1.lemma_grown(next.interners);
                    assert(c1.term_valid(term));
                    c1.lemma_with_term(term);
                    c.lemma_grows_trans(c1, next.interners);
                    lemma_payload_grown(s, next.interners, with_word);
                    let t = next.located.last();
                    assert(next.located == s.located.push(t));
                    assert(next.interners.terms[t.value as int] == term);
                    assert forall|i: int| 0 <= i < next.located.len() implies {
                        &&& ((#[trigger] next.located[i]).value as int) < next.interners.terms.len()
                        &&& phrase_term_ok(next.interners, next.located[i], now)
                        &&& next.interners.terms[next.located[i].value as int].max_nbr_typos <= 2
                        &&& next.interners.terms[next.located[i].value as int].is_prefix ==> prefix
                            && i == next.located.len() - 1
                    } by {
                        if i < s.located.len() {
                            assert(next.located[i] == s.located[i]);
                        }
                    }
                }
            },
            TokenKind::Separator(kind) => {
                let quotes = quote_count(token.lemma);
                let moved = match kind {
                    SeparatorKind::Hard => ParserState {
                        position: position_after_hard_separator(s.position),
                        ..s
                    },
                    SeparatorKind::Soft => s,
                };
                let broken = match kind {
                    SeparatorKind::Hard => moved.after_hard_break(),
                    SeparatorKind::Soft => s,
                };
                assert(next == broken.after_quotes(quotes));
                lemma_closed_phrase_grows(moved);
                lemma_closed_phrase_grows(broken);
                if kind == SeparatorKind::Hard {
                    assert(broken.interners == moved.closed_phrase().interners);
                    moved.closed_phrase().interners.lemma_grown(broken.interners);
                }
                broken.interners.lemma_grown(next.interners);
                if quotes > 0 {
                    assert(next.interners == broken.closed_phrase().interners);
                }
                if kind == SeparatorKind::Hard && moved.phrase is Some {
                    lemma_closed_phrase_payload(moved, with_word);
                }
                let held = if kind == SeparatorKind::Hard {
                    with_word && !closes_wordless(moved, moved.closed_phrase())
                } else {
                    with_word
                };
                if quotes > 0 {
                    lemma_closed_phrase_payload(broken, held);
                }
            },
            TokenKind::Unknown => {},
        }
    }
}

/// Whether the step that reads token `k - 1` emits a prefix.
pub open spec fn prefix_after(
    c: Interners,
    tokens: Seq<TokenView>,
    k: nat,
    words_limit: Option<usize>,
    policy: TypoPolicyView,
) -> bool {
    k > 0 && emits_prefix(
        run(c, tokens, (k - 1) as nat, words_limit, policy),
        tokens[k - 1],
        k < tokens.len(),
        words_limit,
    )
}

/// What holds of the emitted terms holds after any number of tokens,
/// where the interners still fit.
proof fn lemma_run_payload(
    c: Interners,
    tokens: Seq<TokenView>,
    k: nat,
    words_limit: Option<usize>,
    policy: TypoPolicyView,
)
    requires
        c.valid(),
        c.fits(),
        k <= tokens.len() <= MAX_TOKEN_COUNT,
        run(c, tokens, k, words_limit, policy).interners.fits(),
    ensures
        payload_inv(
            run(c, tokens, k, words_limit, policy),
            prefix_after(c, tokens, k, words_limit, policy),
            !wordless_phrase_emitted(c, tokens, k, words_limit, policy),
        ),
    decreases k,
{
    if k > 0 {
        let before = run(c, tokens, (k - 1) as nat, words_limit, policy);
        lemma_run_grows(c, tokens, (k - 1) as nat, k, words_limit, policy);
        before.interners.lemma_grown(run(c, tokens, k, words_limit, policy).interners);
        lemma_run_payload(c, tokens, (k - 1) as nat, words_limit, policy);
        lemma_run_positions(c, tokens, (k - 1) as nat, words_limit, policy);
        assert(!prefix_after(c, tokens, (k - 1) as nat, words_limit, policy));
        lemma_step_payload(
            before,
            (k - 1) as nat,
            tokens[k - 1],
            k < tokens.len(),
            words_limit,
            policy,
            !wordless_phrase_emitted(c, tokens, (k - 1) as nat, words_limit, policy),
        );
    }
}

/// What holds of the emitted terms holds at the end of the query, where
/// the interners still fit.
proof fn lemma_parsed_payload(
    c: Interners,
    tokens: Seq<TokenView>,
    words_limit: Option<usize>,
    policy: TypoPolicyView,
)
    requires
        c.valid(),
        c.fits(),
        parsed(c, tokens, words_limit, policy).interners.fits(),
    ensures
        payload_inv(
            parsed(c, tokens, words_limit, policy),
            ends_on_free_word(c, tokens, words_limit, policy),
            !emits_wordless_phrase(c, tokens, words_limit, policy),
        ),
        ordered(parsed(c, tokens, words_limit, policy).located),
{
    let read = consumed(tokens);
    let n = read.len();
    let end = run(c, read, n, words_limit, policy);
    lemma_closed_phrase_grows(end);
    end.interners.lemma_grown(end.finished().interners);
    lemma_run_payload(c, read, n, words_limit, policy);
    lemma_run_positions(c, read, n, words_limit, policy);
    lemma_positions_ordered(c, tokens, words_limit, policy);
    if n > 0 {
        assert(read.last() == read[n - 1]);
    }
    let prefix = prefix_after(c, read, n, words_limit, policy);
    assert(prefix == ends_on_free_word(c, tokens, words_limit, policy));
    let with_word = !wordless_phrase_emitted(c, read, n, words_limit, policy);
    if prefix {
        assert(end.finished() == end);
    } else if !end.done {
        lemma_closed_phrase_payload(end, with_word);
    }
}

/// At most one emitted term is a prefix. It is then the last one and a
/// single word, and there is one exactly where the last token that is
/// read is a word with text, outside quotes, with the limit not reached
/// before it.
pub proof fn lemma_prefix_is_last_word(
    c: Interners,
    tokens: Seq<TokenView>,
    words_limit: Option<usize>,
    policy: TypoPolicyView,
)
    requires
        c.valid(),
        c.fits(),
        parsed(c, tokens, words_limit, policy).interners.fits(),
    ensures
        ({
            let end = parsed(c, tokens, words_limit, policy);
            let free_word = ends_on_free_word(c, tokens, words_limit, policy);
            &&& forall|i: int|
                0 <= i < end.located.len() ==> ((#[trigger] end.located[i]).value as int)
                    < end.interners.terms.len()
            &&& forall|i: int|
                0 <= i < end.located.len() && end.interners.terms[(
                #[trigger] end.located[i]).value as int].is_prefix ==> {
                    &&& i == end.located.len() - 1
                    &&& free_word
                    &&& end.interners.terms[end.located[i].value as int].zero_typo.phrase is None
                }
            &&& free_word ==> end.located.len() > 0 && end.interners.terms[end.located.last().value as int].is_prefix
        }),
{
    lemma_parsed_payload(c, tokens, words_limit, policy);
    let end = parsed(c, tokens, words_limit, policy);
    let with_word = !emits_wordless_phrase(c, tokens, words_limit, policy);
    assert forall|i: int|
        0 <= i < end.located.len() && end.interners.terms[(
        #[trigger] end.located[i]).value as int].is_prefix implies end.interners.terms[end.located[i].value as int].zero_typo.phrase is None by {
        assert(phrase_term_ok(end.interners, end.located[i], with_word));
    }
}

/// The term of every emitted phrase bears no typo and is no prefix; it
/// ends no earlier than it starts, and its phrase has one slot for each
/// position from its start to its end, so at least one.
pub proof fn lemma_phrase_terms_span(
    c: Interners,
    tokens: Seq<TokenView>,
    words_limit: Option<usize>,
    policy: TypoPolicyView,
)
    requires
        c.valid(),
        c.fits(),
        parsed(c, tokens, words_limit, policy).interners.fits(),
    ensures
        ({
            let end = parsed(c, tokens, words_limit, policy);
            forall|i: int|
                0 <= i < end.located.len() ==> (end.interners.terms[(
                #[trigger] end.located[i]).value as int].zero_typo.phrase matches Some(p) ==> {
                    &&& end.located[i].positions.start <= end.located[i].positions.end
                    &&& (p as int) < end.interners.phrases.len()
                    &&& end.interners.phrases[p as int].len() == end.located[i].positions.end
                        - end.located[i].positions.start + 1
                    &&& end.interners.terms[end.located[i].value as int].max_nbr_typos == 0
                    &&& !end.interners.terms[end.located[i].value as int].is_prefix
                })
        }),
{
    lemma_parsed_payload(c, tokens, words_limit, policy);
    let end = parsed(c, tokens, words_limit, policy);
    let with_word = !emits_wordless_phrase(c, tokens, words_limit, policy);
    assert forall|i: int| 0 <= i < end.located.len() implies (end.interners.terms[(
    #[trigger] end.located[i]).value as int].zero_typo.phrase matches Some(p) ==> {
        &&& end.located[i].positions.start <= end.located[i].positions.end
        &&& (p as int) < end.interners.phrases.len()
        &&& end.interners.phrases[p as int].len() == end.located[i].positions.end
            - end.located[i].positions.start + 1
        &&& end.interners.terms[end.located[i].value as int].max_nbr_typos == 0
        &&& !end.interners.terms[end.located[i].value as int].is_prefix
    }) by {
        assert(phrase_term_ok(end.interners, end.located[i], with_word));
    }
}

/// Unless the parser emits a phrase made of stop words alone, every
/// emitted phrase holds a word.
pub proof fn lemma_phrases_hold_a_word(
    c: Interners,
    tokens: Seq<TokenView>,
    words_limit: Option<usize>,
    policy: TypoPolicyView,
)
    requires
        c.valid(),
        c.fits(),
        parsed(c, tokens, words_limit, policy).interners.fits(),
        !emits_wordless_phrase(c, tokens, words_limit, policy),
    ensures
        ({
            let end = parsed(c, tokens, words_limit, policy);
            forall|i: int|
                0 <= i < end.located.len() ==> (end.interners.terms[(
                #[trigger] end.located[i]).value as int].zero_typo.phrase matches Some(p)
                    ==> has_word(end.interners.phrases[p as int]))
        }),
{
    lemma_parsed_payload(c, tokens, words_limit, policy);
    let end = parsed(c, tokens, words_limit, policy);
    assert forall|i: int| 0 <= i < end.located.len() implies (end.interners.terms[(
    #[trigger] end.located[i]).value as int].zero_typo.phrase matches Some(p) ==> has_word(
        end.interners.phrases[p as int],
    )) by {
        assert(phrase_term_ok(end.interners, end.located[i], true));
    }
}

/// What the parser gives depends on nothing but the tokens, the limit,
/// the typo policy and what was interned before: two searches that start
/// with nothing interned give the same terms, and intern the same.
pub proof fn lemma_fresh_contexts_agree(
    first: Interners,
    second: Interners,
    tokens: Seq<TokenView>,
    words_limit: Option<usize>,
    policy: TypoPolicyView,
)
    requires
        first == Interners::empty(),
        second == Interners::empty(),
    ensures
        parsed(first, tokens, words_limit, policy).located == parsed(
            second,
            tokens,
            words_limit,
            policy,
        ).located,
        parsed(first, tokens, words_limit, policy).interners == parsed(
            second,
            tokens,
            words_limit,
            policy,
        ).interners,
{
}

/// What holds of the terms that the parser emits, with the interners
/// it leaves: the terms are in the order of their positions, their
/// handles point at terms, none bears more than two typos, only the
/// last may be a prefix and only if it is no phrase, and a phrase has
/// one slot for each position of its term, which bears no typo.
pub open spec fn emitted_terms_ok(c: Interners, located: Seq<LocatedQueryTerm>) -> bool {
    &&& ordered(located)
    &&& forall|i: int|
        0 <= i < located.len() ==> {
            let term = c.terms[(#[trigger] located[i]).value as int];
            &&& (located[i].value as int) < c.terms.len()
            &&& term.max_nbr_typos <= 2
            &&& term.is_prefix ==> i == located.len() - 1 && term.zero_typo.phrase is None
            &&& term.zero_typo.phrase matches Some(p) ==> {
                &&& (p as int) < c.phrases.len()
                &&& c.phrases[p as int].len() == located[i].positions.end
                    - located[i].positions.start + 1
                &&& term.max_nbr_typos == 0
            }
        }
}

/// What the parser emits is as `emitted_terms_ok` says, where the
/// interners still fit.
pub proof fn lemma_emitted_terms_ok(
    c: Interners,
    tokens: Seq<TokenView>,
    words_limit: Option<usize>,
    policy: TypoPolicyView,
)
    requires
        c.valid(),
        c.fits(),
        parsed(c, tokens, words_limit, policy).interners.fits(),
    ensures
        emitted_terms_ok(
            parsed(c, tokens, words_limit, policy).interners,
            parsed(c, tokens, words_limit, policy).located,
        ),
{
    lemma_parsed_payload(c, tokens, words_limit, policy);
    lemma_prefix_is_last_word(c, tokens, words_limit, policy);
    lemma_phrase_terms_span(c, tokens, words_limit, policy);
}

} // verus!
