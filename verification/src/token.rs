use vstd::prelude::*;

verus! {

/// How strongly a separator parts what stands on its two sides.
#[derive(Clone, Copy, Debug, PartialEq, Eq, Structural)]
pub enum SeparatorKind {
    /// Ends a sentence or a phrase: a full stop, a line break.
    Hard,
    /// Parts two words: a space, a comma, a quote.
    Soft,
}

/// What a token is.
#[derive(Clone, Copy, Debug, PartialEq, Eq, Structural)]
pub enum TokenKind {
    Word,
    StopWord,
    Separator(SeparatorKind),
    Unknown,
}

/// A normalized token of a query.
#[derive(Debug)]
pub struct Token {
    pub kind: TokenKind,
    /// The normalized text of the token.
    pub lemma: String,
}

pub struct TokenView {
    pub kind: TokenKind,
    pub lemma: Seq<char>,
}

impl View for Token {
    type V = TokenView;

    open spec fn view(&self) -> TokenView {
        TokenView { kind: self.kind, lemma: self.lemma@ }
    }
}

/// The views of a list of tokens.
pub open spec fn token_list(v: Seq<Token>) -> Seq<TokenView> {
    Seq::new(v.len(), |i: int| v[i]@)
}

} // verus!
