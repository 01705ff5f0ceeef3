use crate::context::{
    partially_initialized_term_from_word, typos_for_length, word_term, Interners, SearchContext,
};
use crate::invariants::{emitted_terms_ok, lemma_emitted_count, lemma_emitted_terms_ok};
use crate::phrase::{pushed_interners, PhraseBuilder, PhraseBuilderView};
use crate::term::{LocatedQueryTerm, PositionRange};
use crate::text::{count_quotes, quote_count};
use crate::token::{token_list, SeparatorKind, Token, TokenKind, TokenView};
use crate::typos::{number_of_typos_allowed, typo_policy_of, TypoPolicy, TypoPolicyView};
use crate::{QueryError, MAX_TOKEN_COUNT};
use vstd::prelude::*;

verus! {

/// The position of a word that follows position `p`: one more, and 0
/// after the starting value `u16::MAX`.
pub open spec fn next_position(p: u16) -> u16 {
    if p == u16::MAX {
        0
    } else {
        (p + 1) as u16
    }
}

/// The position after a hard separator: one more, but for the starting
/// value, which stays until the first word comes.
pub open spec fn position_after_hard_separator(p: u16) -> u16 {
    if p == u16::MAX {
        p
    } else {
        (p + 1) as u16
    }
}

/// Whether as many terms were emitted as the caller asked for.
pub open spec fn limit_reached(emitted: nat, words_limit: Option<usize>) -> bool {
    words_limit matches Some(limit) && emitted >= limit
}

/// The tokens that are read: the first `MAX_TOKEN_COUNT`.
pub open spec fn consumed(tokens: Seq<TokenView>) -> Seq<TokenView> {
    if tokens.len() <= MAX_TOKEN_COUNT {
        tokens
    } else {
        tokens.take(MAX_TOKEN_COUNT as int)
    }
}

/// What the parser holds between two tokens.
pub struct ParserState {
    pub interners: Interners,
    /// The position of the last word, `u16::MAX` before the first.
    pub position: u16,
    /// The builder of the open phrase, inside quotes.
    pub phrase: Option<PhraseBuilderView>,
    /// The terms emitted so far.
    pub located: Seq<LocatedQueryTerm>,
    /// The limit was reached: nothing more is read.
    pub done: bool,
}

impl ParserState {
    pub open spec fn start(c: Interners) -> ParserState {
        ParserState {
            interners: c,
            position: u16::MAX,
            phrase: None,
            located: Seq::empty(),
            done: false,
        }
    }

    /// The state once the open phrase, if there is one, is built and
    /// emitted.
    pub open spec fn closed_phrase(self) -> ParserState {
        match self.phrase {
            None => self,
            Some(b) => ParserState {
                interners: b.built_interners(self.interners),
                located: match b.built(self.interners) {
                    Some(t) => self.located.push(t),
                    None => self.located,
                },
                phrase: None,
                ..self
            },
        }
    }

    /// The state once the word `lemma` is emitted as a term at
    /// `position`.
    pub open spec fn word_emitted(
        self,
        lemma: Seq<char>,
        is_prefix: bool,
        position: u16,
        policy: TypoPolicyView,
    ) -> ParserState {
        let c1 = self.interners.with_word(lemma);
        let term = word_term(
            self.interners.word_handle(lemma),
            typos_for_length(lemma, policy.typos(lemma)),
            is_prefix,
        );
        ParserState {
            interners: c1.with_term(term),
            position,
            located: self.located.push(
                LocatedQueryTerm {
                    value: c1.term_handle(term),
                    positions: PositionRange { start: position, end: position },
                },
            ),
            ..self
        }
    }

    /// The state after a word or a stop word. Inside quotes it goes to
    /// the phrase. Outside, a word is emitted, as a prefix where it is
    /// the last token; a stop word only takes its position.
    pub open spec fn after_word(
        self,
        token: TokenView,
        has_next: bool,
        policy: TypoPolicyView,
    ) -> ParserState {
        let position = next_position(self.position);
        match self.phrase {
            Some(b) => ParserState {
                interners: pushed_interners(self.interners, token),
                position,
                phrase: Some(b.pushed(self.interners, token, position)),
                ..self
            },
            None => if token.kind == TokenKind::Word {
                self.word_emitted(token.lemma, !has_next, position, policy)
            } else {
                ParserState { position, ..self }
            },
        }
    }

    /// The state after the quotes of a separator: with none, unchanged.
    /// Else an open phrase is closed by the first quote, and a phrase is
    /// open afterwards where an odd number of quotes is left.
    pub open spec fn after_quotes(self, quotes: nat) -> ParserState {
        if quotes == 0 {
            self
        } else {
            let left = if self.phrase is Some {
                quotes - 1
            } else {
                quotes as int
            };
            ParserState {
                phrase: if left % 2 == 1 {
                    Some(PhraseBuilderView::empty())
                } else {
                    None
                },
                ..self.closed_phrase()
            }
        }
    }

    /// The state after a hard separator, before its quotes are looked
    /// at: an open phrase is closed, and a new one opened.
    pub open spec fn after_hard_break(self) -> ParserState {
        if self.phrase is Some {
            ParserState { phrase: Some(PhraseBuilderView::empty()), ..self.closed_phrase() }
        } else {
            self
        }
    }

    /// The state after a separator.
    pub open spec fn after_separator(self, kind: SeparatorKind, lemma: Seq<char>) -> ParserState {
        match kind {
            SeparatorKind::Hard => ParserState {
                position: position_after_hard_separator(self.position),
                ..self
            }.after_hard_break().after_quotes(quote_count(lemma)),
            SeparatorKind::Soft => self.after_quotes(quote_count(lemma)),
        }
    }

    /// The state after one token. A token without text is skipped. Once
    /// the limit is reached nothing more is read.
    pub open spec fn step(
        self,
        token: TokenView,
        has_next: bool,
        words_limit: Option<usize>,
        policy: TypoPolicyView,
    ) -> ParserState {
        if self.done || token.lemma.len() == 0 {
            self
        } else if limit_reached(self.located.len(), words_limit) {
            ParserState { done: true, ..self }
        } else {
            match token.kind {
                TokenKind::Word | TokenKind::StopWord => self.after_word(token, has_next, policy),
                TokenKind::Separator(kind) => self.after_separator(kind, token.lemma),
                TokenKind::Unknown => self,
            }
        }
    }

    /// The state at the end of the query: a phrase that is still open is
    /// closed, unless the limit was reached before.
    pub open spec fn finished(self) -> ParserState {
        if self.done {
            self
        } else {
            self.closed_phrase()
        }
    }
}

/// The state after the first `k` of `tokens`.
pub open spec fn run(
    c: Interners,
    tokens: Seq<TokenView>,
    k: nat,
    words_limit: Option<usize>,
    policy: TypoPolicyView,
) -> ParserState
    decreases k,
{
    if k == 0 {
        ParserState::start(c)
    } else {
        run(c, tokens, (k - 1) as nat, words_limit, policy).step(
            tokens[k - 1],
            k < tokens.len(),
            words_limit,
            policy,
        )
    }
}

/// The state in which the parser ends on `tokens`, started on the
/// interners `c`.
pub open spec fn parsed(
    c: Interners,
    tokens: Seq<TokenView>,
    words_limit: Option<usize>,
    policy: TypoPolicyView,
) -> ParserState {
    run(c, consumed(tokens), consumed(tokens).len(), words_limit, policy).finished()
}

/// Closing a phrase takes nothing out of the interners.
pub(crate) proof fn lemma_closed_phrase_grows(s: ParserState)
    ensures
        s.interners.grows_to(s.closed_phrase().interners),
        s.interners.grows_to(s.after_hard_break().interners),
        forall|q: nat| s.interners.grows_to(#[trigger] s.after_quotes(q).interners),
{
}

/// A step takes nothing out of the interners.
pub(crate) proof fn lemma_step_grows(
    s: ParserState,
    token: TokenView,
    has_next: bool,
    words_limit: Option<usize>,
    policy: TypoPolicyView,
)
    ensures
        s.interners.grows_to(s.step(token, has_next, words_limit, policy).interners),
{
    if let TokenKind::Separator(kind) = token.kind {
        let moved = ParserState { position: position_after_hard_separator(s.position), ..s };
        lemma_closed_phrase_grows(s);
        lemma_closed_phrase_grows(moved);
        lemma_closed_phrase_grows(moved.after_hard_break());
    }
}

/// The interners only grow while the tokens are read, and a parser that
/// has reached the limit stays as it is.
pub(crate) proof fn lemma_run_grows(
    c: Interners,
    tokens: Seq<TokenView>,
    j: nat,
    k: nat,
    words_limit: Option<usize>,
    policy: TypoPolicyView,
)
    requires
        j <= k,
    ensures
        run(c, tokens, j, words_limit, policy).interners.grows_to(
            run(c, tokens, k, words_limit, policy).interners,
        ),
        run(c, tokens, j, words_limit, policy).done ==> run(c, tokens, k, words_limit, policy)
            == run(c, tokens, j, words_limit, policy),
    decreases k - j,
{
    if j < k {
        lemma_run_grows(c, tokens, j, (k - 1) as nat, words_limit, policy);
        lemma_step_grows(
            run(c, tokens, (k - 1) as nat, words_limit, policy),
            tokens[k - 1],
            k < tokens.len(),
            words_limit,
            policy,
        );
    }
}

/// The parser between two tokens, but for the interners, which the
/// search context holds.
#[derive(Debug)]
pub struct Parser {
    /// The position of the last word, `u16::MAX` before the first.
    pub position: u16,
    /// The builder of the open phrase, inside quotes.
    pub phrase: Option<PhraseBuilder>,
    /// The terms emitted so far.
    pub located_terms: Vec<LocatedQueryTerm>,
}

impl Parser {
    /// The state that this parser and the interners `c` make up.
    pub open spec fn state(&self, c: Interners) -> ParserState {
        ParserState {
            interners: c,
            position: self.position,
            phrase: match self.phrase {
                Some(b) => Some(b@),
                None => None,
            },
            located: self.located_terms@,
            done: false,
        }
    }

    /// The words of the open phrase are interned in `c`.
    pub open spec fn wf(&self, c: Interners) -> bool {
        self.phrase matches Some(b) ==> c.phrase_valid(b@.words)
    }

    /// The parser before the first token.
    pub fn new() -> (r: Self)
        ensures
            forall|c: Interners| #[trigger] r.state(c) == ParserState::start(c),
            forall|c: Interners| #[trigger] r.wf(c),
    {
        Parser { position: u16::MAX, phrase: None, located_terms: Vec::new() }
    }

    /// Builds the open phrase, if there is one, and emits its term.
    pub fn close_phrase(self, ctx: &mut SearchContext) -> (r: Result<Parser, QueryError>)
        requires
            old(ctx).wf(),
            self.wf(old(ctx)@),
        ensures
            final(ctx).wf(),
            final(ctx).settings == old(ctx).settings,
            old(ctx)@.grows_to(final(ctx)@),
            r.is_ok() <==> self.state(old(ctx)@).closed_phrase().interners.fits(),
            r matches Ok(p) ==> p.state(final(ctx)@) == self.state(old(ctx)@).closed_phrase()
                && p.wf(final(ctx)@),
    {
        let Parser { position, phrase, mut located_terms } = self;
        match phrase {
            None => Ok(Parser { position, phrase: None, located_terms }),
            Some(builder) => {
                match builder.build(ctx) {
                    Err(e) => Err(e),
                    Ok(built) => {
                        match built {
                            Some(located_query_term) => {
                                located_terms.push(located_query_term);
                            },
                            None => {},
                        }
                        Ok(Parser { position, phrase: None, located_terms })
                    },
                }
            },
        }
    }

    /// Emits the word `lemma` as a term at `position`.
    pub fn emit_word(
        self,
        ctx: &mut SearchContext,
        lemma: &str,
        is_prefix: bool,
        position: u16,
        policy: &TypoPolicy,
    ) -> (r: Result<Parser, QueryError>)
        requires
            old(ctx).wf(),
            self.wf(old(ctx)@),
        ensures
            final(ctx).wf(),
            final(ctx).settings == old(ctx).settings,
            old(ctx)@.grows_to(final(ctx)@),
            r.is_ok() <==> self.state(old(ctx)@).word_emitted(
                lemma@,
                is_prefix,
                position,
                policy@,
            ).interners.fits(),
            r matches Ok(p) ==> p.state(final(ctx)@) == self.state(old(ctx)@).word_emitted(
                lemma@,
                is_prefix,
                position,
                policy@,
            ) && p.wf(final(ctx)@),
    {
        let ghost c = ctx@;
        let ghost c1 = c.with_word(lemma@);
        proof {
            c.lemma_with_word(lemma@);
        }
        let term = match partially_initialized_term_from_word(
            ctx,
            lemma,
            policy.typos(lemma),
            is_prefix,
        ) {
            Ok(t) => t,
            Err(e) => {
                proof {
                    c1.lemma_grown(self.state(c).word_emitted(lemma@, is_prefix, position, policy@).interners);
                }
                return Err(e);
            },
        };
        proof {
            c1.lemma_with_term(term@);
            c.lemma_grows_trans(c1, c1.with_term(term@));
            c.lemma_grown(c1);
            c1.lemma_grown(c1.with_term(term@));
        }
        let value = match ctx.insert_term(term) {
            Ok(h) => h,
            Err(e) => {
                return Err(e);
            },
        };
        let Parser { position: _, phrase, mut located_terms } = self;
        located_terms.push(
            LocatedQueryTerm { value, positions: PositionRange { start: position, end: position } },
        );
        Ok(Parser { position, phrase, located_terms })
    }

    /// Reads a word or a stop word.
    pub fn read_word(
        self,
        ctx: &mut SearchContext,
        token: &Token,
        has_next: bool,
        policy: &TypoPolicy,
    ) -> (r: Result<Parser, QueryError>)
        requires
            old(ctx).wf(),
            self.wf(old(ctx)@),
        ensures
            final(ctx).wf(),
            final(ctx).settings == old(ctx).settings,
            old(ctx)@.grows_to(final(ctx)@),
            r.is_ok() <==> self.state(old(ctx)@).after_word(
                token@,
                has_next,
                policy@,
            ).interners.fits(),
            r matches Ok(p) ==> p.state(final(ctx)@) == self.state(old(ctx)@).after_word(
                token@,
                has_next,
                policy@,
            ) && p.wf(final(ctx)@),
    {
        let ghost c = ctx@;
        let position = self.position.wrapping_add(1);
        assert(position == next_position(self.position));
        let Parser { position: _, phrase, located_terms } = self;
        match phrase {
            Some(mut builder) => {
                proof {
                    c.lemma_with_word(token@.lemma);
                }
                match builder.push_word(ctx, token, position) {
                    Ok(()) => Ok(Parser { position, phrase: Some(builder), located_terms }),
                    Err(e) => Err(e),
                }
            },
            None => {
                let parser = Parser { position, phrase: None, located_terms };
                match token.kind {
                    TokenKind::Word => parser.emit_word(
                        ctx,
                        token.lemma.as_str(),
                        !has_next,
                        position,
                        policy,
                    ),
                    _ => Ok(parser),
                }
            },
        }
    }

    /// Looks at the quotes of a separator.
    pub fn read_quotes(self, ctx: &mut SearchContext, quotes: usize) -> (r: Result<
        Parser,
        QueryError,
    >)
        requires
            old(ctx).wf(),
            self.wf(old(ctx)@),
        ensures
            final(ctx).wf(),
            final(ctx).settings == old(ctx).settings,
            old(ctx)@.grows_to(final(ctx)@),
            r.is_ok() <==> self.state(old(ctx)@).after_quotes(quotes as nat).interners.fits(),
            r matches Ok(p) ==> p.state(final(ctx)@) == self.state(old(ctx)@).after_quotes(
                quotes as nat,
            ) && p.wf(final(ctx)@),
    {
        if quotes == 0 {
            return Ok(self);
        }
        let left = if self.phrase.is_some() {
            quotes - 1
        } else {
            quotes
        };
        match self.close_phrase(ctx) {
            Err(e) => Err(e),
            Ok(closed) => {
                let Parser { position, phrase: _, located_terms } = closed;
                let phrase = if left % 2 == 1 {
                    Some(PhraseBuilder::empty())
                } else {
                    None
                };
                Ok(Parser { position, phrase, located_terms })
            },
        }
    }

    /// Reads a separator.
    pub fn read_separator(self, ctx: &mut SearchContext, kind: SeparatorKind, lemma: &str) -> (r:
        Result<Parser, QueryError>)
        requires
            old(ctx).wf(),
            self.wf(old(ctx)@),
        ensures
            final(ctx).wf(),
            final(ctx).settings == old(ctx).settings,
            old(ctx)@.grows_to(final(ctx)@),
            r.is_ok() <==> self.state(old(ctx)@).after_separator(kind, lemma@).interners.fits(),
            r matches Ok(p) ==> p.state(final(ctx)@) == self.state(old(ctx)@).after_separator(
                kind,
                lemma@,
            ) && p.wf(final(ctx)@),
    {
        let ghost c = ctx@;
        let quotes = count_quotes(lemma);
        match kind {
            SeparatorKind::Soft => self.read_quotes(ctx, quotes),
            SeparatorKind::Hard => {
                let Parser { position, phrase, located_terms } = self;
                let position = if position == u16::MAX {
                    position
                } else {
                    position + 1
                };
                let moved = Parser { position, phrase, located_terms };
                let ghost moved_state = moved.state(c);
                proof {
                    lemma_closed_phrase_grows(moved_state);
                    lemma_closed_phrase_grows(moved_state.after_hard_break());
                }
                let broken = if moved.phrase.is_some() {
                    match moved.close_phrase(ctx) {
                        Err(e) => {
                            proof {
                                moved_state.after_hard_break().interners.lemma_grown(
                                    moved_state.after_hard_break().after_quotes(
                                        quotes as nat,
                                    ).interners,
                                );
                            }
                            return Err(e);
                        },
                        Ok(closed) => {
                            let Parser { position, phrase: _, located_terms } = closed;
                            Parser { position, phrase: Some(PhraseBuilder::empty()), located_terms }
                        },
                    }
                } else {
                    moved
                };
                let ghost c1 = ctx@;
                proof {
                    assert(broken.state(c1) == moved_state.after_hard_break());
                    c.lemma_grown(c1);
                }
                let r = broken.read_quotes(ctx, quotes);
                proof {
                    c.lemma_grows_trans(c1, ctx@);
                }
                r
            },
        }
    }

    /// Reads one token that has text, before the limit is reached.
    pub fn read_token(
        self,
        ctx: &mut SearchContext,
        token: &Token,
        has_next: bool,
        policy: &TypoPolicy,
    ) -> (r: Result<Parser, QueryError>)
        requires
            old(ctx).wf(),
            self.wf(old(ctx)@),
        ensures
            final(ctx).wf(),
            final(ctx).settings == old(ctx).settings,
            old(ctx)@.grows_to(final(ctx)@),
            ({
                let next = match token@.kind {
                    TokenKind::Word | TokenKind::StopWord => self.state(old(ctx)@).after_word(
                        token@,
                        has_next,
                        policy@,
                    ),
                    TokenKind::Separator(kind) => self.state(old(ctx)@).after_separator(
                        kind,
                        token@.lemma,
                    ),
                    TokenKind::Unknown => self.state(old(ctx)@),
                };
                &&& r.is_ok() <==> next.interners.fits()
                &&& r matches Ok(p) ==> p.state(final(ctx)@) == next && p.wf(final(ctx)@)
            }),
    {
        match token.kind {
            TokenKind::Word | TokenKind::StopWord => self.read_word(ctx, token, has_next, policy),
            TokenKind::Separator(kind) => self.read_separator(ctx, kind, token.lemma.as_str()),
            TokenKind::Unknown => Ok(self),
        }
    }
}

/// Runs the parser over the tokens of a query: token by token, then the
/// end of the query.
pub fn read_tokens(
    ctx: &mut SearchContext,
    query: &Vec<Token>,
    words_limit: Option<usize>,
) -> (r: Result<Vec<LocatedQueryTerm>, QueryError>)
    requires
        old(ctx).wf(),
    ensures
        final(ctx).wf(),
        final(ctx).settings == old(ctx).settings,
        old(ctx)@.grows_to(final(ctx)@),
        ({
            let end = parsed(
                old(ctx)@,
                token_list(query@),
                words_limit,
                typo_policy_of(old(ctx).settings),
            );
            &&& r.is_ok() <==> end.interners.fits()
            &&& r matches Ok(v) ==> v@ == end.located && final(ctx)@ == end.interners
        }),
{
    let nbr_typos = number_of_typos_allowed(ctx);
    let ghost c0 = ctx@;
    let ghost tokens = consumed(token_list(query@));
    let ghost policy = nbr_typos@;
    let n = if query.len() < MAX_TOKEN_COUNT {
        query.len()
    } else {
        MAX_TOKEN_COUNT
    };
    let mut parser = Parser::new();
    let mut i: usize = 0;
    while i < n
        invariant
            i <= n,
            n == tokens.len(),
            n <= query.len(),
            forall|j: int| 0 <= j < n ==> tokens[j] == query@[j]@,
            ctx.wf(),
            ctx.settings == old(ctx).settings,
            policy == nbr_typos@,
            c0 == old(ctx)@,
            c0.grows_to(ctx@),
            tokens == consumed(token_list(query@)),
            policy == typo_policy_of(old(ctx).settings),
            parser.wf(ctx@),
            parser.state(ctx@) == run(c0, tokens, i as nat, words_limit, policy),
        decreases n - i,
    {
        let token = &query[i];
        let ghost before = run(c0, tokens, i as nat, words_limit, policy);
        let ghost after = run(c0, tokens, (i + 1) as nat, words_limit, policy);
        proof {
            assert(after == before.step(tokens[i as int], i + 1 < tokens.len(), words_limit, policy));
            lemma_run_grows(c0, tokens, (i + 1) as nat, n as nat, words_limit, policy);
            lemma_closed_phrase_grows(run(c0, tokens, n as nat, words_limit, policy));
            after.interners.lemma_grown(run(c0, tokens, n as nat, words_limit, policy).interners);
            run(c0, tokens, n as nat, words_limit, policy).interners.lemma_grown(
                parsed(c0, token_list(query@), words_limit, policy).interners,
            );
        }
        if !token.lemma.as_str().is_empty() {
            let reached = match words_limit {
                Some(limit) => parser.located_terms.len() >= limit,
                None => false,
            };
            if reached {
                return Ok(parser.located_terms);
            }
            let ghost c = ctx@;
            match parser.read_token(ctx, token, i + 1 < n, &nbr_typos) {
                Ok(p) => {
                    parser = p;
                },
                Err(e) => {
                    return Err(e);
                },
            }
            proof {
                c0.lemma_grows_trans(c, ctx@);
            }
        }
        i += 1;
    }
    let ghost c = ctx@;
    match parser.close_phrase(ctx) {
        Ok(p) => {
            proof {
                c0.lemma_grows_trans(c, ctx@);
            }
            Ok(p.located_terms)
        },
        Err(e) => {
            proof {
                c0.lemma_grows_trans(c, ctx@);
            }
            Err(e)
        },
    }
}

/// Turns the tokens of a query into its located terms. At most
/// `MAX_TOKEN_COUNT` tokens are read, and once `words_limit` terms are
/// out, the parser stops at the next token that has text. Fails where an
/// interner runs out of handles, and only then. The terms come out in
/// the order of their positions, no more of them than tokens were read
/// or than the limit allows, and only the last may be a prefix.
pub fn located_query_terms_from_string(
    ctx: &mut SearchContext,
    query: &Vec<Token>,
    words_limit: Option<usize>,
) -> (r: Result<Vec<LocatedQueryTerm>, QueryError>)
    requires
        old(ctx).wf(),
    ensures
        final(ctx).wf(),
        final(ctx).settings == old(ctx).settings,
        old(ctx)@.grows_to(final(ctx)@),
        ({
            let end = parsed(
                old(ctx)@,
                token_list(query@),
                words_limit,
                typo_policy_of(old(ctx).settings),
            );
            &&& r.is_ok() <==> end.interners.fits()
            &&& r matches Ok(v) ==> v@ == end.located && final(ctx)@ == end.interners
        }),
        r matches Ok(v) ==> {
            &&& v@.len() <= MAX_TOKEN_COUNT
            &&& v@.len() <= query@.len()
            &&& words_limit matches Some(limit) ==> v@.len() <= limit
            &&& emitted_terms_ok(final(ctx)@, v@)
        },
{
    let ghost start = ctx@;
    let ghost policy = typo_policy_of(ctx.settings);
    let r = read_tokens(ctx, query, words_limit);
    proof {
        lemma_emitted_count(start, token_list(query@), words_limit, policy);
        if r.is_ok() {
            lemma_emitted_terms_ok(start, token_list(query@), words_limit, policy);
        }
    }
    r
}

} // verus!
