use crate::context::{
    partially_initialized_term_from_word, Interners, SearchContext, Synonym, SynonymView,
};
use crate::interner::{lemma_interned, PhraseId, WordId};
use crate::phrase::join_words;
use crate::term::{
    Lazy, LocatedQueryTerm, Phrase, PositionRange, QueryTerm, QueryTermView, ZeroTypoTerm,
    ZeroTypoView,
};
use crate::text::{
    byte_len, byte_length, clone_word_lists, same_word_list, word_list, word_lists,
};
use crate::typos::{TypoPolicy, TypoPolicyView};
use crate::{QueryError, MAX_WORD_LENGTH};
use std::collections::BTreeSet;
use vstd::prelude::*;
use vstd::string::StringExecFns;

verus! {

broadcast use vstd::std_specs::btree::group_btree_axioms;

/// The alternatives that the first entry for `key` gives; none where no
/// entry is for `key`.
pub open spec fn lookup_synonyms(entries: Seq<SynonymView>, key: Seq<Seq<char>>) -> Seq<
    Seq<Seq<char>>,
>
    decreases entries.len(),
{
    if entries.len() == 0 {
        Seq::empty()
    } else if entries[0].words == key {
        entries[0].alternatives
    } else {
        lookup_synonyms(entries.drop_first(), key)
    }
}

/// The views of a list of synonym entries.
pub open spec fn synonym_list(v: Seq<Synonym>) -> Seq<SynonymView> {
    Seq::new(v.len(), |i: int| v[i]@)
}

/// Looks up the alternatives for a run of words, and copies them.
pub fn find_synonyms(entries: &Vec<Synonym>, key: &Vec<String>) -> (r: Vec<Vec<String>>)
    ensures
        word_lists(r@) == lookup_synonyms(synonym_list(entries@), word_list(key@)),
{
    let ghost all = synonym_list(entries@);
    let mut i: usize = 0;
    assert(all.skip(0) =~= all);
    while i < entries.len()
        invariant
            i <= entries.len(),
            all == synonym_list(entries@),
            lookup_synonyms(all, word_list(key@)) == lookup_synonyms(
                all.skip(i as int),
                word_list(key@),
            ),
        decreases entries.len() - i,
    {
        assert(all.skip(i as int)[0] == entries@[i as int]@);
        assert(all.skip(i as int).drop_first() =~= all.skip(i + 1));
        if same_word_list(&entries[i].words, key) {
            return clone_word_lists(&entries[i].alternatives);
        }
        i += 1;
    }
    assert(all.skip(i as int) =~= Seq::<SynonymView>::empty());
    let r: Vec<Vec<String>> = Vec::new();
    assert(word_lists(r@) =~= Seq::<Seq<Seq<char>>>::empty());
    r
}

/// The interners once the words of `ws` are interned, first to last.
pub open spec fn with_words(c: Interners, ws: Seq<Seq<char>>) -> Interners
    decreases ws.len(),
{
    if ws.len() == 0 {
        c
    } else {
        with_words(c, ws.drop_last()).with_word(ws.last())
    }
}

/// The slots of the phrase that the words of `ws` make, interned first
/// to last on `c`.
pub open spec fn word_slots(c: Interners, ws: Seq<Seq<char>>) -> Seq<Option<u16>>
    decreases ws.len(),
{
    if ws.len() == 0 {
        Seq::empty()
    } else {
        word_slots(c, ws.drop_last()).push(
            Some(with_words(c, ws.drop_last()).word_handle(ws.last())),
        )
    }
}

/// The interners once one alternative is interned: its words, then the
/// phrase that they make.
pub open spec fn with_alternative(c: Interners, ws: Seq<Seq<char>>) -> Interners {
    with_words(c, ws).with_phrase(word_slots(c, ws))
}

/// The handle of the phrase of one alternative.
pub open spec fn alternative_handle(c: Interners, ws: Seq<Seq<char>>) -> u16 {
    with_words(c, ws).phrase_handle(word_slots(c, ws))
}

/// The interners once all alternatives are interned, first to last.
pub open spec fn with_alternatives(c: Interners, alts: Seq<Seq<Seq<char>>>) -> Interners
    decreases alts.len(),
{
    if alts.len() == 0 {
        c
    } else {
        with_alternative(with_alternatives(c, alts.drop_last()), alts.last())
    }
}

/// The handles of the phrases of all alternatives.
pub open spec fn alternative_handles(c: Interners, alts: Seq<Seq<Seq<char>>>) -> Set<u16>
    decreases alts.len(),
{
    if alts.len() == 0 {
        Set::empty()
    } else {
        alternative_handles(c, alts.drop_last()).insert(
            alternative_handle(with_alternatives(c, alts.drop_last()), alts.last()),
        )
    }
}

/// Interning words keeps valid interners valid and takes nothing out;
/// where all words found a handle, the slots point at them.
proof fn lemma_with_words(c: Interners, ws: Seq<Seq<char>>)
    requires
        c.valid(),
    ensures
        with_words(c, ws).valid(),
        c.grows_to(with_words(c, ws)),
        word_slots(c, ws).len() == ws.len(),
        with_words(c, ws).fits() ==> with_words(c, ws).phrase_valid(word_slots(c, ws)),
    decreases ws.len(),
{
    if ws.len() > 0 {
        let before = with_words(c, ws.drop_last());
        lemma_with_words(c, ws.drop_last());
        before.lemma_with_word(ws.last());
        before.lemma_grown(with_words(c, ws));
    }
}

/// Interning words takes nothing out of the interners.
proof fn lemma_words_grow(c: Interners, ws: Seq<Seq<char>>)
    ensures
        c.grows_to(with_words(c, ws)),
        c.grows_to(with_alternative(c, ws)),
        with_words(c, ws).grows_to(with_alternative(c, ws)),
    decreases ws.len(),
{
    if ws.len() > 0 {
        lemma_words_grow(c, ws.drop_last());
    }
}

/// Interning alternatives takes nothing out of the interners.
proof fn lemma_alternatives_grow(c: Interners, alts: Seq<Seq<Seq<char>>>)
    ensures
        c.grows_to(with_alternatives(c, alts)),
    decreases alts.len(),
{
    if alts.len() > 0 {
        lemma_alternatives_grow(c, alts.drop_last());
        lemma_words_grow(with_alternatives(c, alts.drop_last()), alts.last());
    }
}

/// Interning an alternative keeps valid interners valid, where it finds
/// a handle for all.
proof fn lemma_with_alternative(c: Interners, ws: Seq<Seq<char>>)
    requires
        c.valid(),
    ensures
        with_alternative(c, ws).fits() ==> with_alternative(c, ws).valid() && (alternative_handle(
            c,
            ws,
        ) as int) < with_alternative(c, ws).phrases.len(),
{
    lemma_with_words(c, ws);
    lemma_words_grow(c, ws);
    let c1 = with_words(c, ws);
    c1.lemma_grown(with_alternative(c, ws));
    if with_alternative(c, ws).fits() {
        c1.lemma_with_phrase(word_slots(c, ws));
    }
}

/// Interning alternatives keeps valid interners valid, where it finds a
/// handle for all; the handles then point at phrases.
proof fn lemma_with_alternatives(c: Interners, alts: Seq<Seq<Seq<char>>>)
    requires
        c.valid(),
    ensures
        with_alternatives(c, alts).fits() ==> with_alternatives(c, alts).valid()
            && with_alternatives(c, alts).phrases_valid(alternative_handles(c, alts)),
    decreases alts.len(),
{
    if alts.len() > 0 {
        let before = with_alternatives(c, alts.drop_last());
        lemma_with_alternatives(c, alts.drop_last());
        lemma_words_grow(before, alts.last());
        before.lemma_grown(with_alternatives(c, alts));
        if with_alternatives(c, alts).fits() {
            lemma_with_alternative(before, alts.last());
        }
    }
}

/// Interns the words of one alternative, first to last, and gives the
/// slots of the phrase they make.
pub fn intern_words(ctx: &mut SearchContext, words: &Vec<String>) -> (r: Result<
    Vec<Option<WordId>>,
    QueryError,
>)
    requires
        old(ctx).wf(),
    ensures
        final(ctx).wf(),
        final(ctx).settings == old(ctx).settings,
        old(ctx)@.grows_to(final(ctx)@),
        r.is_ok() <==> with_words(old(ctx)@, word_list(words@)).fits(),
        r matches Ok(slots) ==> {
            &&& final(ctx)@ == with_words(old(ctx)@, word_list(words@))
            &&& slots@ == word_slots(old(ctx)@, word_list(words@))
            &&& final(ctx)@.phrase_valid(slots@)
        },
{
    let ghost c = ctx@;
    let ghost ws = word_list(words@);
    let mut slots: Vec<Option<WordId>> = Vec::new();
    let mut i: usize = 0;
    assert(ws.take(0) =~= Seq::<Seq<char>>::empty());
    while i < words.len()
        invariant
            i <= words.len(),
            ws == word_list(words@),
            c == old(ctx)@,
            c.valid(),
            ctx.wf(),
            ctx.settings == old(ctx).settings,
            c.grows_to(ctx@),
            ctx@ == with_words(c, ws.take(i as int)),
            slots@ == word_slots(c, ws.take(i as int)),
        decreases words.len() - i,
    {
        let ghost before = ctx@;
        proof {
            assert(ws.take(i + 1).drop_last() =~= ws.take(i as int));
            assert(ws.take(i + 1).last() == words@[i as int]@);
            before.lemma_with_word(words@[i as int]@);
            lemma_with_words(c, ws.take(i + 1));
            assert(ws.take(words.len() as int) =~= ws);
            lemma_with_words_grows(c, ws, i + 1);
            with_words(c, ws.take(i + 1)).lemma_grown(with_words(c, ws));
        }
        match ctx.insert_word(words[i].clone()) {
            Ok(h) => {
                slots.push(Some(h));
            },
            Err(e) => {
                return Err(e);
            },
        }
        i += 1;
    }
    proof {
        assert(ws.take(i as int) =~= ws);
        lemma_with_words(c, ws);
    }
    Ok(slots)
}

/// The interners after a part of the words were interned grow to those
/// after all were.
proof fn lemma_with_words_grows(c: Interners, ws: Seq<Seq<char>>, k: int)
    requires
        0 <= k <= ws.len(),
    ensures
        with_words(c, ws.take(k)).grows_to(with_words(c, ws)),
    decreases ws.len() - k,
{
    if k < ws.len() {
        lemma_with_words_grows(c, ws, k + 1);
        assert(ws.take(k + 1).drop_last() =~= ws.take(k));
    } else {
        assert(ws.take(k) =~= ws);
    }
}

/// The interners after a part of the alternatives were interned grow to
/// those after all were.
proof fn lemma_with_alternatives_grows(c: Interners, alts: Seq<Seq<Seq<char>>>, k: int)
    requires
        0 <= k <= alts.len(),
    ensures
        with_alternatives(c, alts.take(k)).grows_to(with_alternatives(c, alts)),
    decreases alts.len() - k,
{
    if k < alts.len() {
        lemma_with_alternatives_grows(c, alts, k + 1);
        assert(alts.take(k + 1).drop_last() =~= alts.take(k));
        lemma_words_grow(with_alternatives(c, alts.take(k)), alts[k]);
        assert(alts.take(k + 1).last() == alts[k]);
    } else {
        assert(alts.take(k) =~= alts);
    }
}

/// Interns each alternative as a phrase, first to last, and gives the
/// set of their handles.
pub fn intern_alternatives(ctx: &mut SearchContext, alternatives: &Vec<Vec<String>>) -> (r: Result<
    BTreeSet<PhraseId>,
    QueryError,
>)
    requires
        old(ctx).wf(),
    ensures
        final(ctx).wf(),
        final(ctx).settings == old(ctx).settings,
        old(ctx)@.grows_to(final(ctx)@),
        r.is_ok() <==> with_alternatives(old(ctx)@, word_lists(alternatives@)).fits(),
        r matches Ok(handles) ==> {
            &&& final(ctx)@ == with_alternatives(old(ctx)@, word_lists(alternatives@))
            &&& handles@ == alternative_handles(old(ctx)@, word_lists(alternatives@))
            &&& final(ctx)@.phrases_valid(handles@)
        },
{
    let ghost c = ctx@;
    let ghost alts = word_lists(alternatives@);
    let mut handles: BTreeSet<PhraseId> = BTreeSet::new();
    let mut i: usize = 0;
    assert(alts.take(0) =~= Seq::<Seq<Seq<char>>>::empty());
    while i < alternatives.len()
        invariant
            i <= alternatives.len(),
            alts == word_lists(alternatives@),
            c == old(ctx)@,
            c.valid(),
            c.fits(),
            ctx.wf(),
            ctx.settings == old(ctx).settings,
            c.grows_to(ctx@),
            ctx@ == with_alternatives(c, alts.take(i as int)),
            handles@ == alternative_handles(c, alts.take(i as int)),
        decreases alternatives.len() - i,
    {
        let ghost before = ctx@;
        let ghost ws = alts[i as int];
        proof {
            assert(alts.take(i + 1).drop_last() =~= alts.take(i as int));
            assert(alts.take(i + 1).last() == ws);
            assert(ws == word_list(alternatives@[i as int]@));
            lemma_with_alternative(before, ws);
            lemma_words_grow(before, ws);
            lemma_with_alternatives_grows(c, alts, i + 1);
            with_alternatives(c, alts.take(i + 1)).lemma_grown(with_alternatives(c, alts));
            with_words(before, ws).lemma_grown(with_alternative(before, ws));
        }
        let words = match intern_words(ctx, &alternatives[i]) {
            Ok(slots) => slots,
            Err(e) => {
                return Err(e);
            },
        };
        let ghost mid = ctx@;
        let phrase = match ctx.insert_phrase(Phrase { words }) {
            Ok(h) => h,
            Err(e) => {
                proof {
                    c.lemma_grows_trans(before, ctx@);
                }
                return Err(e);
            },
        };
        handles.insert(phrase);
        proof {
            c.lemma_grows_trans(before, ctx@);
        }
        i += 1;
    }
    proof {
        assert(alts.take(i as int) =~= alts);
        lemma_with_alternatives(c, alts);
    }
    Ok(handles)
}

/// The term behind a located term.
pub open spec fn term_of(c: Interners, t: LocatedQueryTerm) -> QueryTermView {
    c.terms[t.value as int]
}

/// The handles of the words that the terms of a window stand for.
pub open spec fn ngram_word_handles(c: Interners, terms: Seq<LocatedQueryTerm>) -> Seq<u16> {
    Seq::new(terms.len(), |i: int| term_of(c, terms[i]).original)
}

/// The words that the terms of a window stand for.
pub open spec fn ngram_words(c: Interners, terms: Seq<LocatedQueryTerm>) -> Seq<Seq<char>> {
    Seq::new(terms.len(), |i: int| c.words[term_of(c, terms[i]).original as int])
}

/// The words of a window, written as one.
pub open spec fn ngram_text(c: Interners, terms: Seq<LocatedQueryTerm>) -> Seq<char> {
    join_words(ngram_words(c, terms), Seq::empty())
}

/// Each term of the window starts one position after the end of the
/// one before it.
pub open spec fn contiguous(terms: Seq<LocatedQueryTerm>) -> bool {
    forall|i: int|
        0 <= i < terms.len() - 1 ==> (#[trigger] terms[i]).positions.end + 1 == terms[i
            + 1].positions.start
}

/// Whether a window of terms may be made into one: none is a phrase,
/// none is itself made of several words, their positions follow one
/// another, and the words written as one are no longer than a word may
/// be.
pub open spec fn ngram_allowed(c: Interners, terms: Seq<LocatedQueryTerm>) -> bool {
    &&& forall|i: int| 0 <= i < terms.len() ==> term_of(c, #[trigger] terms[i]).zero_typo.phrase is None
    &&& contiguous(terms)
    &&& forall|i: int| 0 <= i < terms.len() ==> term_of(c, #[trigger] terms[i]).ngram_words is None
    &&& byte_len(ngram_text(c, terms)) <= MAX_WORD_LENGTH
}

/// The typos that a term made of `n` words bears, where the policy
/// gives `typos` to its text: one less for each word after the first,
/// and never less than none.
pub open spec fn ngram_typos(typos: u8, n: nat) -> u8 {
    if typos + 1 <= n {
        0
    } else {
        (typos + 1 - n) as u8
    }
}

/// The alternatives that the synonyms give for the words of a window.
pub open spec fn ngram_alternatives(
    c: Interners,
    terms: Seq<LocatedQueryTerm>,
    synonyms: Seq<SynonymView>,
) -> Seq<Seq<Seq<char>>> {
    lookup_synonyms(synonyms, ngram_words(c, terms))
}

/// The interners once the text of the window and the alternatives are
/// interned.
pub open spec fn ngram_parts_interned(
    c: Interners,
    terms: Seq<LocatedQueryTerm>,
    synonyms: Seq<SynonymView>,
) -> Interners {
    with_alternatives(
        c.with_word(ngram_text(c, terms)),
        ngram_alternatives(c, terms, synonyms),
    )
}

/// The term that a window makes.
pub open spec fn ngram_term(
    c: Interners,
    terms: Seq<LocatedQueryTerm>,
    synonyms: Seq<SynonymView>,
    policy: TypoPolicyView,
) -> QueryTermView {
    let text = ngram_text(c, terms);
    QueryTermView {
        original: c.word_handle(text),
        ngram_words: Some(ngram_word_handles(c, terms)),
        is_prefix: term_of(c, terms.last()).is_prefix,
        max_nbr_typos: ngram_typos(policy.typos(text), terms.len()),
        zero_typo: ZeroTypoView {
            synonyms: alternative_handles(
                c.with_word(text),
                ngram_alternatives(c, terms, synonyms),
            ),
            ..ZeroTypoView::empty()
        },
        one_typo: None,
        two_typo: None,
    }
}

/// The interners once a window was made into a term.
pub open spec fn ngram_interners(
    c: Interners,
    terms: Seq<LocatedQueryTerm>,
    synonyms: Seq<SynonymView>,
    policy: TypoPolicyView,
) -> Interners {
    ngram_parts_interned(c, terms, synonyms).with_term(ngram_term(c, terms, synonyms, policy))
}

/// The located term that a window makes: its term, from the start of the
/// first to the end of the last.
pub open spec fn ngram(
    c: Interners,
    terms: Seq<LocatedQueryTerm>,
    synonyms: Seq<SynonymView>,
    policy: TypoPolicyView,
) -> LocatedQueryTerm {
    LocatedQueryTerm {
        value: ngram_parts_interned(c, terms, synonyms).term_handle(
            ngram_term(c, terms, synonyms, policy),
        ),
        positions: PositionRange {
            start: terms.first().positions.start,
            end: terms.last().positions.end,
        },
    }
}

/// Makes one term of a window of adjacent terms, where that is allowed,
/// and nothing where it is not. The term stands for the words written as
/// one, bears one typo less for each word after the first, is a prefix
/// where the last term is one, and has for synonyms what the index gives
/// for the words of the window. Fails where an interner runs out of
/// handles, and only then.
pub fn make_ngram(
    ctx: &mut SearchContext,
    terms: &[LocatedQueryTerm],
    number_of_typos_allowed: &TypoPolicy,
) -> (r: Result<Option<LocatedQueryTerm>, QueryError>)
    requires
        old(ctx).wf(),
        terms@.len() > 0,
        forall|i: int| 0 <= i < terms@.len() ==> (#[trigger] terms@[i].value as int) < old(
            ctx,
        )@.terms.len(),
    ensures
        final(ctx).wf(),
        final(ctx).settings == old(ctx).settings,
        old(ctx)@.grows_to(final(ctx)@),
        ({
            let c = old(ctx)@;
            let synonyms = synonym_list(old(ctx).settings.synonyms@);
            let policy = number_of_typos_allowed@;
            if ngram_allowed(c, terms@) {
                &&& r.is_ok() <==> ngram_interners(c, terms@, synonyms, policy).fits()
                &&& r matches Ok(t) ==> {
                    &&& t == Some(ngram(c, terms@, synonyms, policy))
                    &&& final(ctx)@ == ngram_interners(c, terms@, synonyms, policy)
                }
            } else {
                r == Ok::<Option<LocatedQueryTerm>, QueryError>(None) && final(ctx)@ == c
            }
        }),
{
    let ghost c = ctx@;
    let ghost synonyms = synonym_list(ctx.settings.synonyms@);
    let ghost policy = number_of_typos_allowed@;
    let n = terms.len();
    let mut i: usize = 0;
    while i < n
        invariant
            i <= n,
            n == terms@.len(),
            ctx@ == c,
            ctx.wf(),
            forall|j: int| 0 <= j < n ==> (#[trigger] terms@[j].value as int) < c.terms.len(),
            forall|j: int| 0 <= j < i ==> term_of(c, #[trigger] terms@[j]).zero_typo.phrase is None,
        decreases n - i,
    {
        if ctx.term_interner.get(terms[i].value).zero_typo.phrase.is_some() {
            assert(term_of(c, terms@[i as int]).zero_typo.phrase is Some);
            return Ok(None);
        }
        i += 1;
    }
    let mut i: usize = 0;
    while i + 1 < n
        invariant
            i + 1 <= n,
            n == terms@.len(),
            ctx@ == c,
            ctx.wf(),
            forall|j: int| 0 <= j < i ==> (#[trigger] terms@[j]).positions.end + 1 == terms@[j
                + 1].positions.start,
        decreases n - i,
    {
        let end = terms[i].positions.end;
        let start = terms[i + 1].positions.start;
        if end == u16::MAX || end + 1 != start {
            assert(!contiguous(terms@));
            return Ok(None);
        }
        i += 1;
    }
    assert(contiguous(terms@));
    let mut words_interned: Vec<WordId> = Vec::new();
    let mut words: Vec<String> = Vec::new();
    let mut ngram_str = String::new();
    let ghost texts = ngram_words(c, terms@);
    let mut i: usize = 0;
    assert(texts.take(0) =~= Seq::<Seq<char>>::empty());
    while i < n
        invariant
            i <= n,
            n == terms@.len(),
            ctx@ == c,
            ctx.wf(),
            texts == ngram_words(c, terms@),
            forall|j: int| 0 <= j < n ==> (#[trigger] terms@[j].value as int) < c.terms.len(),
            forall|j: int| 0 <= j < i ==> term_of(c, #[trigger] terms@[j]).ngram_words is None,
            words_interned@ == ngram_word_handles(c, terms@).take(i as int),
            word_list(words@) == texts.take(i as int),
            ngram_str@ == join_words(texts.take(i as int), Seq::empty()),
        decreases n - i,
    {
        let term = ctx.term_interner.get(terms[i].value);
        assert(c.term_valid(c.terms[terms@[i as int].value as int]));
        if term.ngram_words.is_some() {
            assert(term_of(c, terms@[i as int]).ngram_words is Some);
            return Ok(None);
        }
        let original = term.original;
        let word = ctx.word_interner.get(original);
        proof {
            assert(texts.take(i + 1).drop_last() =~= texts.take(i as int));
            assert(texts.take(i + 1).last() == word@);
            assert(join_words(texts.take(i + 1), Seq::empty()) =~= ngram_str@ + word@);
        }
        ngram_str.append(word.as_str());
        words.push(word.clone());
        words_interned.push(original);
        assert(words_interned@ =~= ngram_word_handles(c, terms@).take(i + 1));
        assert(word_list(words@) =~= texts.take(i + 1));
        i += 1;
    }
    proof {
        assert(texts.take(n as int) =~= texts);
        assert(ngram_word_handles(c, terms@).take(n as int) =~= ngram_word_handles(c, terms@));
    }
    let start = terms[0].positions.start;
    let end = terms[n - 1].positions.end;
    let is_prefix = ctx.term_interner.get(terms[n - 1].value).is_prefix;
    if byte_length(ngram_str.as_str()) > MAX_WORD_LENGTH {
        return Ok(None);
    }
    assert(ngram_allowed(c, terms@));
    let ghost text = ngram_text(c, terms@);
    let ghost alts = ngram_alternatives(c, terms@, synonyms);
    let ghost c1 = c.with_word(text);
    let ghost c2 = with_alternatives(c1, alts);
    let ghost model_term = ngram_term(c, terms@, synonyms, policy);
    proof {
        c.lemma_with_word(text);
        lemma_alternatives_grow(c1, alts);
        c1.lemma_grown(c2);
        c2.lemma_grown(c2.with_term(model_term));
        c.lemma_grows_trans(c1, c2);
        c.lemma_grown(c2);
        assert(c1.words.contains(text));
        assert(c1.with_word(text) == c1);
        lemma_interned(c1.words, text);
    }
    let ngram_str_interned = match ctx.insert_word(ngram_str.clone()) {
        Ok(h) => h,
        Err(e) => {
            return Err(e);
        },
    };
    let typos = number_of_typos_allowed.typos(ngram_str.as_str());
    let penalty = n - 1;
    let max_nbr_typos: u8 = if penalty >= typos as usize {
        0
    } else {
        typos - penalty as u8
    };
    assert(max_nbr_typos == ngram_typos(policy.typos(text), n as nat));
    let term = match partially_initialized_term_from_word(
        ctx,
        ngram_str.as_str(),
        max_nbr_typos,
        is_prefix,
    ) {
        Ok(t) => t,
        Err(e) => {
            return Err(e);
        },
    };
    let index_synonyms = find_synonyms(&ctx.settings.synonyms, &words);
    let handles = match intern_alternatives(ctx, &index_synonyms) {
        Ok(handles) => handles,
        Err(e) => {
            proof {
                c.lemma_grows_trans(c1, ctx@);
            }
            return Err(e);
        },
    };
    let term = QueryTerm {
        original: ngram_str_interned,
        ngram_words: Some(words_interned),
        is_prefix,
        max_nbr_typos,
        zero_typo: ZeroTypoTerm {
            phrase: term.zero_typo.phrase,
            exact: term.zero_typo.exact,
            prefix_of: term.zero_typo.prefix_of,
            synonyms: handles,
            use_prefix_db: term.zero_typo.use_prefix_db,
        },
        one_typo: Lazy::Uninit,
        two_typo: Lazy::Uninit,
    };
    proof {
        assert(term@.zero_typo =~= model_term.zero_typo);
        assert(term@ == model_term);
        c.lemma_grows_trans(c1, c2);
        assert(c2.term_valid(term@)) by {
            assert forall|j: int| 0 <= j < ngram_word_handles(c, terms@).len() implies (
            #[trigger] ngram_word_handles(c, terms@)[j] as int) < c2.words.len() by {
                assert(c.term_valid(c.terms[terms@[j].value as int]));
            }
        }
        c2.lemma_with_term(term@);
    }
    let value = match ctx.insert_term(term) {
        Ok(h) => h,
        Err(e) => {
            proof {
                c.lemma_grows_trans(c2, ctx@);
            }
            return Err(e);
        },
    };
    proof {
        c.lemma_grows_trans(c2, ctx@);
    }
    Ok(Some(LocatedQueryTerm { value, positions: PositionRange { start, end } }))
}

/// A window that holds a term made of several words is never made into
/// one term again.
pub proof fn lemma_ngram_of_ngram_refused(c: Interners, terms: Seq<LocatedQueryTerm>, i: int)
    requires
        0 <= i < terms.len(),
        term_of(c, terms[i]).ngram_words is Some,
    ensures
        !ngram_allowed(c, terms),
{
}

} // verus!
