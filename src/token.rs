use vstd::prelude::*;

verus! {

/// A lexical token of the macro language.
#[derive(Debug, Clone, PartialEq, Eq)]
pub enum Token {
    /// A reference to a variable.
    Ident(String),
    /// An address literal, kept with its `0x` prefix.
    Address(String),
    /// Literal text: a quoted literal, or a resolved fragment.
    Text(String),
    /// The `=` of an assignment.
    Assign,
    /// A line break.
    NewLine,
}

/// The mathematical model of a [`Token`].
pub enum TokenView {
    Ident(Seq<char>),
    Address(Seq<char>),
    Text(Seq<char>),
    Assign,
    NewLine,
}

impl View for Token {
    type V = TokenView;

    open spec fn view(&self) -> TokenView {
        match self {
            Token::Ident(s) => TokenView::Ident(s@),
            Token::Address(s) => TokenView::Address(s@),
            Token::Text(s) => TokenView::Text(s@),
            Token::Assign => TokenView::Assign,
            Token::NewLine => TokenView::NewLine,
        }
    }
}

/// The models of a sequence of tokens.
pub open spec fn toks(v: Seq<Token>) -> Seq<TokenView> {
    v.map_values(|t: Token| t@)
}

/// The models of a result that carries tokens.
pub open spec fn token_result(r: Result<Vec<Token>, MacroError>) -> Result<Seq<TokenView>, ErrorView> {
    match r {
        Ok(v) => Ok(toks(v@)),
        Err(e) => Err(e@),
    }
}

/// `ts` with `p` in front, or the error unchanged.
pub open spec fn prepend(p: Seq<TokenView>, r: Result<Seq<TokenView>, ErrorView>) -> Result<
    Seq<TokenView>,
    ErrorView,
> {
    match r {
        Ok(ts) => Ok(p + ts),
        Err(e) => Err(e),
    }
}

/// Prepending nothing leaves a result unchanged.
pub proof fn lemma_prepend_empty(r: Result<Seq<TokenView>, ErrorView>)
    ensures
        prepend(Seq::empty(), r) == r,
{
    if let Ok(ts) = r {
        assert(Seq::<TokenView>::empty() + ts =~= ts);
    }
}

/// Prepending two prefixes in turn is prepending their concatenation.
pub proof fn lemma_prepend_prepend(
    p: Seq<TokenView>,
    q: Seq<TokenView>,
    r: Result<Seq<TokenView>, ErrorView>,
)
    ensures
        prepend(p, prepend(q, r)) == prepend(p + q, r),
{
    if let Ok(ts) = r {
        assert(p + (q + ts) =~= (p + q) + ts);
    }
}

impl Token {
    /// A copy of this token.
    pub fn duplicate(&self) -> (r: Token)
        ensures
            r@ == self@,
    {
        match self {
            Token::Ident(s) => Token::Ident(s.clone()),
            Token::Address(s) => Token::Address(s.clone()),
            Token::Text(s) => Token::Text(s.clone()),
            Token::Assign => Token::Assign,
            Token::NewLine => Token::NewLine,
        }
    }
}

/// Everything that can go wrong between source text and output.
#[derive(Debug, Clone, PartialEq, Eq)]
pub enum MacroError {
    /// A quoted literal is not closed before the end of the input.
    UnterminatedText,
    /// An address literal runs up to the end of the input.
    UnterminatedAddress,
    /// A statement does not start with an identifier.
    ExpectedIdentifier,
    /// A statement's identifier is not followed by `=`.
    ExpectedAssign,
    /// A reference to a name that has no definition.
    UndefinedVariable(String),
    /// A name is referenced while it is being expanded.
    CyclicDefinition(String),
    /// The program does not define `out`.
    MissingOut,
    /// A token other than text reached the emitter.
    NonTextToken,
}

/// The mathematical model of a [`MacroError`].
pub enum ErrorView {
    UnterminatedText,
    UnterminatedAddress,
    ExpectedIdentifier,
    ExpectedAssign,
    UndefinedVariable(Seq<char>),
    CyclicDefinition(Seq<char>),
    MissingOut,
    NonTextToken,
}

impl View for MacroError {
    type V = ErrorView;

    open spec fn view(&self) -> ErrorView {
        match self {
            MacroError::UnterminatedText => ErrorView::UnterminatedText,
            MacroError::UnterminatedAddress => ErrorView::UnterminatedAddress,
            MacroError::ExpectedIdentifier => ErrorView::ExpectedIdentifier,
            MacroError::ExpectedAssign => ErrorView::ExpectedAssign,
            MacroError::UndefinedVariable(s) => ErrorView::UndefinedVariable(s@),
            MacroError::CyclicDefinition(s) => ErrorView::CyclicDefinition(s@),
            MacroError::MissingOut => ErrorView::MissingOut,
            MacroError::NonTextToken => ErrorView::NonTextToken,
        }
    }
}

} // verus!
