use crate::context::{Interners, SearchContext};
use crate::interner::{PhraseId, WordId};
use crate::term::{
    Lazy, LocatedQueryTerm, Phrase, PositionRange, QueryTerm, QueryTermView, ZeroTypoTerm,
    ZeroTypoView,
};
use crate::token::{Token, TokenKind, TokenView};
use crate::QueryError;
use std::collections::BTreeSet;
use vstd::prelude::*;
use vstd::string::StringExecFns;

verus! {

/// The words that stand in the filled slots of a phrase, in order.
pub open spec fn present_words(words: Seq<Seq<char>>, slots: Seq<Option<u16>>) -> Seq<Seq<char>>
    decreases slots.len(),
{
    if slots.len() == 0 {
        Seq::empty()
    } else {
        let before = present_words(words, slots.drop_last());
        match slots.last() {
            Some(w) => before.push(words[w as int]),
            None => before,
        }
    }
}

/// The words of `ws` in one string, with `sep` between each two.
pub open spec fn join_words(ws: Seq<Seq<char>>, sep: Seq<char>) -> Seq<char>
    decreases ws.len(),
{
    if ws.len() == 0 {
        Seq::empty()
    } else if ws.len() == 1 {
        ws[0]
    } else {
        join_words(ws.drop_last(), sep) + sep + ws.last()
    }
}

/// The text that stands for a phrase: its words, stop words left out,
/// with one space between each two.
pub open spec fn phrase_description(words: Seq<Seq<char>>, slots: Seq<Option<u16>>) -> Seq<char> {
    join_words(present_words(words, slots), seq![' '])
}

/// The text that stands for an interned phrase.
pub fn description(ctx: &SearchContext, phrase: PhraseId) -> (r: String)
    requires
        ctx.wf(),
        (phrase as int) < ctx@.phrases.len(),
    ensures
        r@ == phrase_description(ctx@.words, ctx@.phrases[phrase as int]),
{
    let p = ctx.phrase_interner.get(phrase);
    let ghost slots = p@;
    let ghost words = ctx@.words;
    let ghost sep = seq![' '];
    assert(ctx@.phrase_valid(ctx@.phrases[phrase as int]));
    let mut out = String::new();
    let mut first = true;
    let mut i: usize = 0;
    assert(slots.take(0) =~= Seq::<Option<u16>>::empty());
    while i < p.words.len()
        invariant
            i <= p.words.len(),
            slots == p.words@,
            words == ctx@.words,
            sep == seq![' '],
            ctx@.phrase_valid(slots),
            out@ == join_words(present_words(words, slots.take(i as int)), sep),
            first == (present_words(words, slots.take(i as int)).len() == 0),
        decreases p.words.len() - i,
    {
        let ghost before = present_words(words, slots.take(i as int));
        proof {
            assert(slots.take(i + 1).drop_last() =~= slots.take(i as int));
            assert(slots.take(i + 1).last() == slots[i as int]);
        }
        match p.words[i] {
            Some(w) => {
                proof {
                    assert(slots[i as int] == Some(w));
                    assert(before.push(words[w as int]).drop_last() =~= before);
                    reveal_strlit(" ");
                    assert(" "@ =~= sep);
                }
                if !first {
                    out.append(" ");
                }
                out.append(ctx.word_interner.get(w).as_str());
                first = false;
                assert(out@ =~= join_words(before.push(words[w as int]), sep));
            },
            None => {},
        }
        i += 1;
    }
    assert(slots.take(i as int) =~= slots);
    out
}

/// The term that stands for a phrase.
pub open spec fn phrase_term(original: u16, phrase: u16) -> QueryTermView {
    QueryTermView {
        original,
        ngram_words: None,
        is_prefix: false,
        max_nbr_typos: 0,
        zero_typo: ZeroTypoView { phrase: Some(phrase), ..ZeroTypoView::empty() },
        one_typo: None,
        two_typo: None,
    }
}

/// Gathers the words between two quotes. It is empty until the first
/// word comes, then holds the slots and the positions of the first and
/// of the last one.
#[derive(Debug)]
pub struct PhraseBuilder {
    pub words: Vec<Option<WordId>>,
    pub start: u16,
    pub end: u16,
}

pub struct PhraseBuilderView {
    pub words: Seq<Option<u16>>,
    pub start: u16,
    pub end: u16,
}

impl View for PhraseBuilder {
    type V = PhraseBuilderView;

    open spec fn view(&self) -> PhraseBuilderView {
        PhraseBuilderView { words: self.words@, start: self.start, end: self.end }
    }
}

/// The interners after a token was pushed into a phrase: a word is
/// interned, a stop word is not.
pub open spec fn pushed_interners(c: Interners, token: TokenView) -> Interners {
    if token.kind == TokenKind::StopWord {
        c
    } else {
        c.with_word(token.lemma)
    }
}

impl PhraseBuilderView {
    pub open spec fn empty() -> PhraseBuilderView {
        PhraseBuilderView { words: Seq::empty(), start: u16::MAX, end: u16::MAX }
    }

    pub open spec fn is_empty(self) -> bool {
        self.words.len() == 0
    }

    /// The builder after the token at `position` was pushed: one slot
    /// more, empty for a stop word.
    pub open spec fn pushed(self, c: Interners, token: TokenView, position: u16) -> PhraseBuilderView {
        PhraseBuilderView {
            words: self.words.push(
                if token.kind == TokenKind::StopWord {
                    None
                } else {
                    Some(c.word_handle(token.lemma))
                },
            ),
            start: if self.is_empty() {
                position
            } else {
                self.start
            },
            end: position,
        }
    }

    /// The interners once the phrase is interned.
    pub open spec fn with_phrase(self, c: Interners) -> Interners {
        c.with_phrase(self.words)
    }

    /// The interners once the phrase and the word that stands for it
    /// are interned.
    pub open spec fn with_description(self, c: Interners) -> Interners {
        let c1 = self.with_phrase(c);
        c1.with_word(phrase_description(c1.words, self.words))
    }

    /// The term that is built from the slots.
    pub open spec fn term(self, c: Interners) -> QueryTermView {
        let c1 = self.with_phrase(c);
        phrase_term(c1.word_handle(phrase_description(c1.words, self.words)), c.phrase_handle(self.words))
    }

    /// The interners after the build: unchanged for an empty builder;
    /// else with the phrase, the word that stands for it and the term.
    pub open spec fn built_interners(self, c: Interners) -> Interners {
        if self.is_empty() {
            c
        } else {
            self.with_description(c).with_term(self.term(c))
        }
    }

    /// What the build gives: nothing for an empty builder; else the term
    /// of the phrase, from the first position to the last.
    pub open spec fn built(self, c: Interners) -> Option<LocatedQueryTerm> {
        if self.is_empty() {
            None
        } else {
            Some(
                LocatedQueryTerm {
                    value: self.with_description(c).term_handle(self.term(c)),
                    positions: PositionRange { start: self.start, end: self.end },
                },
            )
        }
    }

    /// The build leaves valid interners valid, and takes nothing out.
    pub(crate) proof fn lemma_built(self, c: Interners)
        requires
            c.valid(),
            c.phrase_valid(self.words),
        ensures
            self.built_interners(c).valid(),
            c.grows_to(self.built_interners(c)),
            c.grows_to(self.with_phrase(c)),
            self.with_phrase(c).valid(),
            self.with_phrase(c).grows_to(self.with_description(c)),
            self.with_description(c).valid(),
            self.with_description(c).grows_to(self.built_interners(c)) || self.is_empty(),
            self.with_description(c).term_valid(self.term(c)),
            !self.is_empty() && self.built_interners(c).fits() ==> {
                let t = self.built(c).unwrap();
                &&& (t.value as int) < self.built_interners(c).terms.len()
                &&& self.built_interners(c).terms[t.value as int] == self.term(c)
                &&& (self.term(c).zero_typo.phrase.unwrap() as int) < self.built_interners(
                    c,
                ).phrases.len()
                &&& self.built_interners(c).phrases[self.term(
                    c,
                ).zero_typo.phrase.unwrap() as int] == self.words
            },
    {
        let c1 = self.with_phrase(c);
        c.lemma_with_phrase(self.words);
        let d = phrase_description(c1.words, self.words);
        c1.lemma_with_word(d);
        let c2 = self.with_description(c);
        c1.lemma_grown(c2);
        let t = self.term(c);
        assert(c2.term_valid(t));
        c2.lemma_with_term(t);
        c2.lemma_grown(c2.with_term(t));
    }
}

impl PhraseBuilder {
    /// A builder with no slot.
    pub fn empty() -> (r: Self)
        ensures
            r@ == PhraseBuilderView::empty(),
    {
        PhraseBuilder { words: Vec::new(), start: u16::MAX, end: u16::MAX }
    }

    pub fn is_empty(&self) -> (r: bool)
        ensures
            r == self@.is_empty(),
    {
        self.words.len() == 0
    }

    /// Takes the token at `position` into the phrase: a stop word as an
    /// empty slot, anything else as a word, which is interned.
    pub fn push_word(&mut self, ctx: &mut SearchContext, token: &Token, position: u16) -> (r:
        Result<(), QueryError>)
        requires
            old(ctx).wf(),
            old(ctx)@.phrase_valid(old(self)@.words),
        ensures
            final(ctx).wf(),
            final(ctx).settings == old(ctx).settings,
            final(ctx)@.phrase_valid(final(self)@.words),
            r.is_ok() <==> pushed_interners(old(ctx)@, token@).fits(),
            r is Ok ==> {
                &&& final(ctx)@ == pushed_interners(old(ctx)@, token@)
                &&& final(self)@ == old(self)@.pushed(old(ctx)@, token@, position)
            },
            r is Err ==> final(ctx)@ == old(ctx)@ && final(self)@ == old(self)@,
    {
        let slot = match token.kind {
            TokenKind::StopWord => None,
            _ => {
                proof {
                    ctx@.lemma_with_word(token@.lemma);
                    ctx@.lemma_grown(ctx@.with_word(token@.lemma));
                }
                match ctx.insert_word(token.lemma.clone()) {
                    Ok(h) => Some(h),
                    Err(e) => {
                        return Err(e);
                    },
                }
            },
        };
        if self.is_empty() {
            self.start = position;
        }
        self.end = position;
        self.words.push(slot);
        Ok(())
    }

    /// Ends the phrase. An empty builder gives nothing. Else the phrase
    /// is interned, then a word that stands for it, then its term, which
    /// bears no typo and is no prefix.
    pub fn build(self, ctx: &mut SearchContext) -> (r: Result<Option<LocatedQueryTerm>, QueryError>)
        requires
            old(ctx).wf(),
            old(ctx)@.phrase_valid(self@.words),
        ensures
            final(ctx).wf(),
            final(ctx).settings == old(ctx).settings,
            old(ctx)@.grows_to(final(ctx)@),
            r.is_ok() <==> self@.built_interners(old(ctx)@).fits(),
            r matches Ok(t) ==> {
                &&& final(ctx)@ == self@.built_interners(old(ctx)@)
                &&& t == self@.built(old(ctx)@)
            },
    {
        let ghost c = ctx@;
        let ghost b = self@;
        proof {
            b.lemma_built(c);
            c.lemma_grown(b.with_phrase(c));
            b.with_phrase(c).lemma_grown(b.with_description(c));
            if !b.is_empty() {
                b.with_description(c).lemma_grown(b.built_interners(c));
            }
            c.lemma_with_phrase(b.words);
        }
        if self.is_empty() {
            return Ok(None);
        }
        let start = self.start;
        let end = self.end;
        let phrase = match ctx.insert_phrase(Phrase { words: self.words }) {
            Ok(h) => h,
            Err(e) => {
                return Err(e);
            },
        };
        let phrase_desc = description(ctx, phrase);
        proof {
            b.with_phrase(c).lemma_with_word(phrase_desc@);
        }
        let original = match ctx.insert_word(phrase_desc) {
            Ok(h) => h,
            Err(e) => {
                return Err(e);
            },
        };
        let term = QueryTerm {
            original,
            ngram_words: None,
            max_nbr_typos: 0,
            is_prefix: false,
            zero_typo: ZeroTypoTerm {
                phrase: Some(phrase),
                exact: None,
                prefix_of: BTreeSet::new(),
                synonyms: BTreeSet::new(),
                use_prefix_db: None,
            },
            one_typo: Lazy::Uninit,
            two_typo: Lazy::Uninit,
        };
        assert(term@ == b.term(c));
        let value = match ctx.insert_term(term) {
            Ok(h) => h,
            Err(e) => {
                return Err(e);
            },
        };
        Ok(Some(LocatedQueryTerm { value, positions: PositionRange { start, end } }))
    }
}

} // verus!
