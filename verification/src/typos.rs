use crate::context::{IndexSettings, SearchContext};
use crate::text::{byte_len, byte_length, clone_word_list, contains_word, word_list};
use vstd::prelude::*;

verus! {

/// The rule that says how many typos a word may bear, as read from the
/// index once per search.
#[derive(Debug)]
pub struct TypoPolicy {
    /// Whether typos are tolerated at all.
    pub authorize_typos: bool,
    /// The length in bytes from which a word bears one typo.
    pub min_len_one_typo: u8,
    /// The length in bytes from which a word bears two typos.
    pub min_len_two_typos: u8,
    /// The words that never bear a typo.
    pub exact_words: Option<Vec<String>>,
}

pub struct TypoPolicyView {
    pub authorize_typos: bool,
    pub min_len_one_typo: u8,
    pub min_len_two_typos: u8,
    pub exact_words: Option<Seq<Seq<char>>>,
}

impl View for TypoPolicy {
    type V = TypoPolicyView;

    open spec fn view(&self) -> TypoPolicyView {
        TypoPolicyView {
            authorize_typos: self.authorize_typos,
            min_len_one_typo: self.min_len_one_typo,
            min_len_two_typos: self.min_len_two_typos,
            exact_words: match self.exact_words {
                Some(ws) => Some(word_list(ws@)),
                None => None,
            },
        }
    }
}

impl TypoPolicyView {
    /// Whether `word` is one of the words that must match exactly.
    pub open spec fn is_exact(self, word: Seq<char>) -> bool {
        self.exact_words matches Some(ws) && ws.contains(word)
    }

    /// The number of typos that `word` may bear.
    pub open spec fn typos(self, word: Seq<char>) -> u8 {
        if !self.authorize_typos || byte_len(word) < self.min_len_one_typo || self.is_exact(word) {
            0
        } else if byte_len(word) < self.min_len_two_typos {
            1
        } else {
            2
        }
    }
}

impl TypoPolicy {
    /// The number of typos that `word` may bear.
    pub fn typos(&self, word: &str) -> (r: u8)
        ensures
            r == self@.typos(word@),
            r <= 2,
    {
        let len = byte_length(word);
        if !self.authorize_typos || len < self.min_len_one_typo as usize {
            return 0;
        }
        let exact = match &self.exact_words {
            Some(ws) => contains_word(ws, &word.to_owned()),
            None => false,
        };
        if exact {
            0
        } else if len < self.min_len_two_typos as usize {
            1
        } else {
            2
        }
    }
}

/// The typo policy that a set of index settings asks for.
pub open spec fn typo_policy_of(settings: IndexSettings) -> TypoPolicyView {
    TypoPolicyView {
        authorize_typos: settings.authorize_typos,
        min_len_one_typo: settings.min_word_len_one_typo,
        min_len_two_typos: settings.min_word_len_two_typos,
        exact_words: match settings.exact_words {
            Some(ws) => Some(word_list(ws@)),
            None => None,
        },
    }
}

/// Reads the typo policy of a search from the settings that its context
/// carries.
pub fn number_of_typos_allowed(ctx: &SearchContext) -> (r: TypoPolicy)
    ensures
        r@ == typo_policy_of(ctx.settings),
{
    let exact_words = match &ctx.settings.exact_words {
        Some(ws) => Some(clone_word_list(ws)),
        None => None,
    };
    TypoPolicy {
        authorize_typos: ctx.settings.authorize_typos,
        min_len_one_typo: ctx.settings.min_word_len_one_typo,
        min_len_two_typos: ctx.settings.min_word_len_two_typos,
        exact_words,
    }
}

} // verus!
