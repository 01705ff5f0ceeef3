use crate::interner::{
    interned_handle, interned_store, lemma_interned, Interner, PhraseId, TermId, WordId,
    HANDLE_CAPACITY,
};
use crate::term::{Lazy, Phrase, QueryTerm, QueryTermView, ZeroTypoTerm, ZeroTypoView};
use crate::text::{byte_len, byte_length, word_list, word_lists};
use crate::{QueryError, MAX_WORD_LENGTH};
use vstd::prelude::*;

verus! {

/// The alternatives that the index knows for one run of words.
#[derive(Debug)]
pub struct Synonym {
    /// The words as they stand in a query.
    pub words: Vec<String>,
    /// What may stand for them, each a run of words.
    pub alternatives: Vec<Vec<String>>,
}

pub struct SynonymView {
    pub words: Seq<Seq<char>>,
    pub alternatives: Seq<Seq<Seq<char>>>,
}

impl View for Synonym {
    type V = SynonymView;

    open spec fn view(&self) -> SynonymView {
        SynonymView { words: word_list(self.words@), alternatives: word_lists(self.alternatives@) }
    }
}

/// What a search reads from the index it runs on.
#[derive(Debug)]
pub struct IndexSettings {
    /// Whether typos are tolerated at all.
    pub authorize_typos: bool,
    /// The length in bytes from which a word bears one typo.
    pub min_word_len_one_typo: u8,
    /// The length in bytes from which a word bears two typos.
    pub min_word_len_two_typos: u8,
    /// The words that never bear a typo.
    pub exact_words: Option<Vec<String>>,
    /// The synonyms; of two entries for the same words the first counts.
    pub synonyms: Vec<Synonym>,
}

/// The contents of the three interners of a search, as plain sequences.
/// The handle of a value is its index.
pub struct Interners {
    pub words: Seq<Seq<char>>,
    pub phrases: Seq<Seq<Option<u16>>>,
    pub terms: Seq<QueryTermView>,
}

impl Interners {
    pub open spec fn empty() -> Interners {
        Interners { words: Seq::empty(), phrases: Seq::empty(), terms: Seq::empty() }
    }

    /// Every value has a handle.
    pub open spec fn fits(self) -> bool {
        &&& self.words.len() <= HANDLE_CAPACITY
        &&& self.phrases.len() <= HANDLE_CAPACITY
        &&& self.terms.len() <= HANDLE_CAPACITY
    }

    /// Every filled slot of `p` is the handle of a word.
    pub open spec fn phrase_valid(self, p: Seq<Option<u16>>) -> bool {
        forall|j: int| 0 <= j < p.len() ==> (#[trigger] p[j] matches Some(w) ==> (w as int) < self.words.len())
    }

    /// Every handle of `ws` is the handle of a word.
    pub open spec fn words_valid(self, ws: Set<u16>) -> bool {
        forall|w: u16| #[trigger] ws.contains(w) ==> (w as int) < self.words.len()
    }

    /// Every handle of `ps` is the handle of a phrase.
    pub open spec fn phrases_valid(self, ps: Set<u16>) -> bool {
        forall|p: u16| #[trigger] ps.contains(p) ==> (p as int) < self.phrases.len()
    }

    /// Every handle that `t` holds points into these interners.
    pub open spec fn term_valid(self, t: QueryTermView) -> bool {
        &&& (t.original as int) < self.words.len()
        &&& t.ngram_words matches Some(ws) ==> forall|j: int|
            0 <= j < ws.len() ==> (#[trigger] ws[j] as int) < self.words.len()
        &&& t.zero_typo.phrase matches Some(p) ==> (p as int) < self.phrases.len()
        &&& t.zero_typo.exact matches Some(w) ==> (w as int) < self.words.len()
        &&& self.words_valid(t.zero_typo.prefix_of)
        &&& self.phrases_valid(t.zero_typo.synonyms)
        &&& t.zero_typo.use_prefix_db matches Some(w) ==> (w as int) < self.words.len()
        &&& t.one_typo matches Some(o) ==> {
            &&& o.split_words matches Some(p) ==> (p as int) < self.phrases.len()
            &&& self.words_valid(o.one_typo)
        }
        &&& t.two_typo matches Some(ws) ==> self.words_valid(ws)
    }

    /// Nothing is held twice, and every handle that is held points at a
    /// value.
    pub open spec fn valid(self) -> bool {
        &&& self.words.no_duplicates()
        &&& self.phrases.no_duplicates()
        &&& self.terms.no_duplicates()
        &&& forall|i: int| 0 <= i < self.phrases.len() ==> self.phrase_valid(#[trigger] self.phrases[i])
        &&& forall|i: int| 0 <= i < self.terms.len() ==> self.term_valid(#[trigger] self.terms[i])
    }

    /// `other` holds all that `self` holds, under the same handles.
    pub open spec fn grows_to(self, other: Interners) -> bool {
        &&& self.words.is_prefix_of(other.words)
        &&& self.phrases.is_prefix_of(other.phrases)
        &&& self.terms.is_prefix_of(other.terms)
    }

    pub open spec fn with_word(self, w: Seq<char>) -> Interners {
        Interners { words: interned_store(self.words, w), ..self }
    }

    pub open spec fn word_handle(self, w: Seq<char>) -> u16 {
        interned_handle(self.words, w) as u16
    }

    pub open spec fn with_phrase(self, p: Seq<Option<u16>>) -> Interners {
        Interners { phrases: interned_store(self.phrases, p), ..self }
    }

    pub open spec fn phrase_handle(self, p: Seq<Option<u16>>) -> u16 {
        interned_handle(self.phrases, p) as u16
    }

    pub open spec fn with_term(self, t: QueryTermView) -> Interners {
        Interners { terms: interned_store(self.terms, t), ..self }
    }

    pub open spec fn term_handle(self, t: QueryTermView) -> u16 {
        interned_handle(self.terms, t) as u16
    }

    /// What holds of valid interners still holds once they have grown.
    pub proof fn lemma_grown(self, other: Interners)
        requires
            self.grows_to(other),
        ensures
            forall|p: Seq<Option<u16>>| self.phrase_valid(p) ==> other.phrase_valid(p),
            forall|t: QueryTermView| self.term_valid(t) ==> other.term_valid(t),
            self.words.len() <= other.words.len(),
            self.phrases.len() <= other.phrases.len(),
            self.terms.len() <= other.terms.len(),
            !self.fits() ==> !other.fits(),
    {
    }

    pub proof fn lemma_grows_trans(self, b: Interners, c: Interners)
        requires
            self.grows_to(b),
            b.grows_to(c),
        ensures
            self.grows_to(c),
    {
    }

    pub proof fn lemma_with_word(self, w: Seq<char>)
        requires
            self.valid(),
        ensures
            self.with_word(w).valid(),
            self.grows_to(self.with_word(w)),
            self.with_word(w).fits() ==> self.word_handle(w) as int == interned_handle(
                self.words,
                w,
            ),
            0 <= interned_handle(self.words, w) < self.with_word(w).words.len(),
            self.with_word(w).words[interned_handle(self.words, w)] == w,
    {
        lemma_interned(self.words, w);
        self.lemma_grown(self.with_word(w));
    }

    pub proof fn lemma_with_phrase(self, p: Seq<Option<u16>>)
        requires
            self.valid(),
            self.phrase_valid(p),
        ensures
            self.with_phrase(p).valid(),
            self.grows_to(self.with_phrase(p)),
            self.with_phrase(p).fits() ==> self.phrase_handle(p) as int == interned_handle(
                self.phrases,
                p,
            ),
            0 <= interned_handle(self.phrases, p) < self.with_phrase(p).phrases.len(),
            self.with_phrase(p).phrases[interned_handle(self.phrases, p)] == p,
    {
        lemma_interned(self.phrases, p);
        self.lemma_grown(self.with_phrase(p));
    }

    pub proof fn lemma_with_term(self, t: QueryTermView)
        requires
            self.valid(),
            self.term_valid(t),
        ensures
            self.with_term(t).valid(),
            self.grows_to(self.with_term(t)),
            self.with_term(t).fits() ==> self.term_handle(t) as int == interned_handle(
                self.terms,
                t,
            ),
            0 <= interned_handle(self.terms, t) < self.with_term(t).terms.len(),
            self.with_term(t).terms[interned_handle(self.terms, t)] == t,
    {
        lemma_interned(self.terms, t);
        self.lemma_grown(self.with_term(t));
    }
}

/// What one search owns: the three interners, and what it reads from the
/// index.
pub struct SearchContext {
    pub word_interner: Interner<String>,
    pub phrase_interner: Interner<Phrase>,
    pub term_interner: Interner<QueryTerm>,
    pub settings: IndexSettings,
}

impl View for SearchContext {
    type V = Interners;

    open spec fn view(&self) -> Interners {
        Interners {
            words: self.word_interner@,
            phrases: self.phrase_interner@,
            terms: self.term_interner@,
        }
    }
}

impl SearchContext {
    pub open spec fn wf(&self) -> bool {
        &&& self@.valid()
        &&& self@.fits()
    }

    /// A context with nothing interned yet.
    pub fn new(settings: IndexSettings) -> (r: Self)
        ensures
            r.wf(),
            r@ == Interners::empty(),
            r.settings == settings,
    {
        SearchContext {
            word_interner: Interner::new(),
            phrase_interner: Interner::new(),
            term_interner: Interner::new(),
            settings,
        }
    }

    /// Interns a word.
    pub fn insert_word(&mut self, word: String) -> (r: Result<WordId, QueryError>)
        requires
            old(self).wf(),
        ensures
            final(self).wf(),
            final(self).settings == old(self).settings,
            r.is_ok() <==> old(self)@.with_word(word@).fits(),
            r matches Ok(h) ==> final(self)@ == old(self)@.with_word(word@) && h == old(
                self,
            )@.word_handle(word@),
            r is Err ==> final(self)@ == old(self)@,
    {
        proof {
            self@.lemma_with_word(word@);
        }
        self.word_interner.insert(word)
    }

    /// Interns a phrase whose words are interned.
    pub fn insert_phrase(&mut self, phrase: Phrase) -> (r: Result<PhraseId, QueryError>)
        requires
            old(self).wf(),
            old(self)@.phrase_valid(phrase@),
        ensures
            final(self).wf(),
            final(self).settings == old(self).settings,
            r.is_ok() <==> old(self)@.with_phrase(phrase@).fits(),
            r matches Ok(h) ==> final(self)@ == old(self)@.with_phrase(phrase@) && h == old(
                self,
            )@.phrase_handle(phrase@),
            r is Err ==> final(self)@ == old(self)@,
    {
        proof {
            self@.lemma_with_phrase(phrase@);
        }
        self.phrase_interner.insert(phrase)
    }

    /// Interns a term whose words and phrases are interned.
    pub fn insert_term(&mut self, term: QueryTerm) -> (r: Result<TermId, QueryError>)
        requires
            old(self).wf(),
            old(self)@.term_valid(term@),
        ensures
            final(self).wf(),
            final(self).settings == old(self).settings,
            r.is_ok() <==> old(self)@.with_term(term@).fits(),
            r matches Ok(h) ==> final(self)@ == old(self)@.with_term(term@) && h == old(
                self,
            )@.term_handle(term@),
            r is Err ==> final(self)@ == old(self)@,
    {
        proof {
            self@.lemma_with_term(term@);
        }
        self.term_interner.insert(term)
    }
}

/// The term of a single word, with nothing known of what matches it.
pub open spec fn word_term(original: u16, max_typos: u8, is_prefix: bool) -> QueryTermView {
    QueryTermView {
        original,
        ngram_words: None,
        is_prefix,
        max_nbr_typos: max_typos,
        zero_typo: ZeroTypoView::empty(),
        one_typo: None,
        two_typo: None,
    }
}

/// The typos that a word of this length may bear at most: none where it
/// is longer than a word may be.
pub open spec fn typos_for_length(word: Seq<char>, max_typos: u8) -> u8 {
    if byte_len(word) > MAX_WORD_LENGTH {
        0
    } else {
        max_typos
    }
}

/// Builds the term of a single word: interns the word, and leaves empty
/// all that is found by looking into the index.
pub fn partially_initialized_term_from_word(
    ctx: &mut SearchContext,
    word: &str,
    max_typos: u8,
    is_prefix: bool,
) -> (r: Result<QueryTerm, QueryError>)
    requires
        old(ctx).wf(),
    ensures
        final(ctx).wf(),
        final(ctx).settings == old(ctx).settings,
        r.is_ok() <==> old(ctx)@.with_word(word@).fits(),
        r matches Ok(t) ==> {
            &&& final(ctx)@ == old(ctx)@.with_word(word@)
            &&& t@ == word_term(
                old(ctx)@.word_handle(word@),
                typos_for_length(word@, max_typos),
                is_prefix,
            )
            &&& final(ctx)@.term_valid(t@)
        },
        r is Err ==> final(ctx)@ == old(ctx)@,
{
    proof {
        ctx@.lemma_with_word(word@);
    }
    let original = match ctx.insert_word(word.to_owned()) {
        Ok(h) => h,
        Err(e) => {
            return Err(e);
        },
    };
    let max_nbr_typos: u8 = if byte_length(word) > MAX_WORD_LENGTH {
        0
    } else {
        max_typos
    };
    Ok(
        QueryTerm {
            original,
            ngram_words: None,
            is_prefix,
            max_nbr_typos,
            zero_typo: ZeroTypoTerm::empty(),
            one_typo: Lazy::Uninit,
            two_typo: Lazy::Uninit,
        },
    )
}

} // verus!
