use vstd::prelude::*;

verus! {

/// A lexical unit handed in by the tokenizer: a tag plus its payload text.
#[derive(Debug, PartialEq, Eq)]
pub enum Token {
    /// A raw, unprocessed fragment of template text.
    Literal(String),
    /// A placeholder identifier to substitute at render time.
    Interpolation(String),
    /// Begins the named block.
    SectionOpener(String),
    /// Ends the named block; its name must match the enclosing opener's.
    SectionCloser(String),
}

/// The mathematical value of a `Token`: the same tag over the payload's
/// character sequence.
pub enum TokenV {
    Literal(Seq<char>),
    Interpolation(Seq<char>),
    SectionOpener(Seq<char>),
    SectionCloser(Seq<char>),
}

impl View for Token {
    type V = TokenV;

    open spec fn view(&self) -> TokenV {
        match self {
            Token::Literal(s) => TokenV::Literal(s@),
            Token::Interpolation(s) => TokenV::Interpolation(s@),
            Token::SectionOpener(s) => TokenV::SectionOpener(s@),
            Token::SectionCloser(s) => TokenV::SectionCloser(s@),
        }
    }
}

impl Token {
    /// A fresh token with the same tag and a copy of the payload text.
    pub fn duplicate(&self) -> (t: Token)
        ensures
            t@ == self@,
    {
        match self {
            Token::Literal(s) => Token::Literal(s.clone()),
            Token::Interpolation(s) => Token::Interpolation(s.clone()),
            Token::SectionOpener(s) => Token::SectionOpener(s.clone()),
            Token::SectionCloser(s) => Token::SectionCloser(s.clone()),
        }
    }
}

/// The views of a whole token sequence, in source order.
pub open spec fn tokens_view(tokens: Seq<Token>) -> Seq<TokenV> {
    tokens.map_values(|t: Token| t@)
}

} // verus!
