use crate::interner::{PhraseId, Same, TermId, WordId};
use std::collections::BTreeSet;
use vstd::prelude::*;
use vstd::std_specs::btree::spec_btree_keys_iter;
use vstd::std_specs::iter::IteratorSpec;

verus! {

broadcast use vstd::std_specs::btree::group_btree_axioms;

/// An ordered run of word slots. An empty slot stands for a stop word:
/// it keeps its place in the phrase and matches anything.
#[derive(Debug)]
pub struct Phrase {
    pub words: Vec<Option<WordId>>,
}

impl View for Phrase {
    type V = Seq<Option<u16>>;

    open spec fn view(&self) -> Seq<Option<u16>> {
        self.words@
    }
}

impl Same for Phrase {
    fn same(&self, other: &Self) -> (r: bool) {
        if self.words.len() != other.words.len() {
            return false;
        }
        let mut i: usize = 0;
        while i < self.words.len()
            invariant
                i <= self.words.len(),
                self.words.len() == other.words.len(),
                forall|j: int| 0 <= j < i ==> self.words@[j] == other.words@[j],
            decreases self.words.len() - i,
        {
            if !same_slot(self.words[i], other.words[i]) {
                return false;
            }
            i += 1;
        }
        assert(self@ =~= other@);
        true
    }
}

/// Whether two optional handles are the same.
pub fn same_slot(a: Option<u16>, b: Option<u16>) -> (r: bool)
    ensures
        r == (a == b),
{
    match (a, b) {
        (None, None) => true,
        (Some(x), Some(y)) => x == y,
        _ => false,
    }
}

/// Whether two sets of handles hold the same handles.
pub fn same_handles(a: &BTreeSet<u16>, b: &BTreeSet<u16>) -> (r: bool)
    ensures
        r == (a@ == b@),
{
    broadcast use vstd::laws_cmp::group_laws_cmp;

    if a.len() != b.len() {
        return false;
    }
    let mut all_held = true;
    let ghost keys = spec_btree_keys_iter(a).remaining();
    for x in iter: a.iter()
        invariant
            iter.seq() == keys,
            keys.unref().to_set() == a@,
            all_held <==> forall|j: int| 0 <= j < iter.index() ==> b@.contains(*#[trigger] keys[j]),
    {
        all_held = all_held && b.contains(x);
    }
    proof {
        vstd::seq_lib::seq_to_set_is_finite(keys.unref());
        if all_held {
            assert forall|x: u16| a@.contains(x) implies b@.contains(x) by {
                let j = choose|j: int| 0 <= j < keys.unref().len() && keys.unref()[j] == x;
                assert(*keys[j] == x);
            }
            assert(a@.subset_of(b@));
            vstd::seq_lib::seq_to_set_is_finite(spec_btree_keys_iter(b).remaining().unref());
            vstd::set_lib::lemma_subset_equality(a@, b@);
        } else {
            let j = choose|j: int| 0 <= j < keys.len() && !b@.contains(*#[trigger] keys[j]);
            assert(keys.unref()[j] == *keys[j]);
            assert(a@.contains(*keys[j]));
        }
    }
    all_held
}

/// A slot that is filled on demand, after parsing.
#[derive(Debug)]
pub enum Lazy<T> {
    Uninit,
    Init(T),
}

impl<T: View> View for Lazy<T> {
    type V = Option<T::V>;

    open spec fn view(&self) -> Option<T::V> {
        match self {
            Lazy::Uninit => None,
            Lazy::Init(t) => Some(t@),
        }
    }
}

/// The variants of a term that match with no typo.
#[derive(Debug)]
pub struct ZeroTypoTerm {
    /// The phrase, where the term came from quotes.
    pub phrase: Option<PhraseId>,
    /// The exact word.
    pub exact: Option<WordId>,
    /// The words of which this word is a prefix.
    pub prefix_of: BTreeSet<WordId>,
    /// The synonyms, each a phrase.
    pub synonyms: BTreeSet<PhraseId>,
    /// The entry of the prefix table to use.
    pub use_prefix_db: Option<WordId>,
}

pub struct ZeroTypoView {
    pub phrase: Option<u16>,
    pub exact: Option<u16>,
    pub prefix_of: Set<u16>,
    pub synonyms: Set<u16>,
    pub use_prefix_db: Option<u16>,
}

impl View for ZeroTypoTerm {
    type V = ZeroTypoView;

    open spec fn view(&self) -> ZeroTypoView {
        ZeroTypoView {
            phrase: self.phrase,
            exact: self.exact,
            prefix_of: self.prefix_of@,
            synonyms: self.synonyms@,
            use_prefix_db: self.use_prefix_db,
        }
    }
}

impl ZeroTypoView {
    /// The variants of a term of which nothing is known yet.
    pub open spec fn empty() -> ZeroTypoView {
        ZeroTypoView {
            phrase: None,
            exact: None,
            prefix_of: Set::empty(),
            synonyms: Set::empty(),
            use_prefix_db: None,
        }
    }
}

impl ZeroTypoTerm {
    pub fn empty() -> (r: Self)
        ensures
            r@ == ZeroTypoView::empty(),
    {
        ZeroTypoTerm {
            phrase: None,
            exact: None,
            prefix_of: BTreeSet::new(),
            synonyms: BTreeSet::new(),
            use_prefix_db: None,
        }
    }
}

impl Same for ZeroTypoTerm {
    fn same(&self, other: &Self) -> (r: bool) {
        same_slot(self.phrase, other.phrase) && same_slot(self.exact, other.exact) && same_handles(
            &self.prefix_of,
            &other.prefix_of,
        ) && same_handles(&self.synonyms, &other.synonyms) && same_slot(
            self.use_prefix_db,
            other.use_prefix_db,
        )
    }
}

/// The variants of a term that match with one typo.
#[derive(Debug)]
pub struct OneTypoTerm {
    /// The two words into which the word splits.
    pub split_words: Option<PhraseId>,
    /// The words at distance one.
    pub one_typo: BTreeSet<WordId>,
}

pub struct OneTypoView {
    pub split_words: Option<u16>,
    pub one_typo: Set<u16>,
}

impl View for OneTypoTerm {
    type V = OneTypoView;

    open spec fn view(&self) -> OneTypoView {
        OneTypoView { split_words: self.split_words, one_typo: self.one_typo@ }
    }
}

impl Same for OneTypoTerm {
    fn same(&self, other: &Self) -> (r: bool) {
        same_slot(self.split_words, other.split_words) && same_handles(
            &self.one_typo,
            &other.one_typo,
        )
    }
}

/// The variants of a term that match with two typos.
#[derive(Debug)]
pub struct TwoTypoTerm {
    /// The words at distance two.
    pub two_typos: BTreeSet<WordId>,
}

impl View for TwoTypoTerm {
    type V = Set<u16>;

    open spec fn view(&self) -> Set<u16> {
        self.two_typos@
    }
}

impl Same for TwoTypoTerm {
    fn same(&self, other: &Self) -> (r: bool) {
        same_handles(&self.two_typos, &other.two_typos)
    }
}

impl<T: Same> Same for Lazy<T> {
    fn same(&self, other: &Self) -> (r: bool) {
        match (self, other) {
            (Lazy::Uninit, Lazy::Uninit) => true,
            (Lazy::Init(a), Lazy::Init(b)) => a.same(b),
            _ => false,
        }
    }
}

/// One unit of a query: a word, a phrase or an n-gram, with what may
/// match it.
#[derive(Debug)]
pub struct QueryTerm {
    /// The word as it was typed; for a phrase or an n-gram, a word made
    /// up to stand for it.
    pub original: WordId,
    /// The words that an n-gram was made of.
    pub ngram_words: Option<Vec<WordId>>,
    /// Whether the term may match as a prefix.
    pub is_prefix: bool,
    /// How many typos the term bears, from 0 to 2.
    pub max_nbr_typos: u8,
    pub zero_typo: ZeroTypoTerm,
    pub one_typo: Lazy<OneTypoTerm>,
    pub two_typo: Lazy<TwoTypoTerm>,
}

pub struct QueryTermView {
    pub original: u16,
    pub ngram_words: Option<Seq<u16>>,
    pub is_prefix: bool,
    pub max_nbr_typos: u8,
    pub zero_typo: ZeroTypoView,
    pub one_typo: Option<OneTypoView>,
    pub two_typo: Option<Set<u16>>,
}

impl View for QueryTerm {
    type V = QueryTermView;

    open spec fn view(&self) -> QueryTermView {
        QueryTermView {
            original: self.original,
            ngram_words: match self.ngram_words {
                Some(v) => Some(v@),
                None => None,
            },
            is_prefix: self.is_prefix,
            max_nbr_typos: self.max_nbr_typos,
            zero_typo: self.zero_typo@,
            one_typo: self.one_typo@,
            two_typo: self.two_typo@,
        }
    }
}

/// Whether two lists of handles are the same.
pub fn same_words(a: &Vec<u16>, b: &Vec<u16>) -> (r: bool)
    ensures
        r == (a@ == b@),
{
    if a.len() != b.len() {
        return false;
    }
    let mut i: usize = 0;
    while i < a.len()
        invariant
            i <= a.len(),
            a.len() == b.len(),
            forall|j: int| 0 <= j < i ==> a@[j] == b@[j],
        decreases a.len() - i,
    {
        if a[i] != b[i] {
            return false;
        }
        i += 1;
    }
    assert(a@ =~= b@);
    true
}

impl Same for QueryTerm {
    fn same(&self, other: &Self) -> (r: bool) {
        let same_ngram = match (&self.ngram_words, &other.ngram_words) {
            (None, None) => true,
            (Some(a), Some(b)) => same_words(a, b),
            _ => false,
        };
        same_ngram && self.original == other.original && self.is_prefix == other.is_prefix
            && self.max_nbr_typos == other.max_nbr_typos && self.zero_typo.same(&other.zero_typo)
            && self.one_typo.same(&other.one_typo) && self.two_typo.same(&other.two_typo)
    }
}

/// An inclusive range of token positions.
#[derive(Clone, Copy, Debug, PartialEq, Eq, Structural)]
pub struct PositionRange {
    pub start: u16,
    pub end: u16,
}

/// A term with the positions it covers in the query.
#[derive(Clone, Copy, Debug, PartialEq, Eq, Structural)]
pub struct LocatedQueryTerm {
    pub value: TermId,
    pub positions: PositionRange,
}

} // verus!
