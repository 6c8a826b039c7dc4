use vstd::prelude::*;
use crate::token::{ErrorView, MacroError, Token, TokenView, toks};

verus! {

/// Every token is text.
pub open spec fn all_text(t: Seq<TokenView>) -> bool {
    forall|i: int| 0 <= i < t.len() ==> #[trigger] t[i] is Text
}

/// The content of a text token; nothing for any other token.
pub open spec fn text_of(tok: TokenView) -> Seq<char> {
    match tok {
        TokenView::Text(s) => s,
        _ => Seq::empty(),
    }
}

/// The contents of the text tokens of `t`, concatenated in order.
pub open spec fn joined(t: Seq<TokenView>) -> Seq<char>
    decreases t.len(),
{
    if t.len() == 0 {
        Seq::empty()
    } else {
        joined(t.drop_last()) + text_of(t.last())
    }
}

/// The output for a resolved token sequence, which must hold text only.
pub open spec fn emit(t: Seq<TokenView>) -> Result<Seq<char>, ErrorView> {
    if all_text(t) {
        Ok(joined(t))
    } else {
        Err(ErrorView::NonTextToken)
    }
}

/// The models of a result that carries text.
pub open spec fn text_result(r: Result<String, MacroError>) -> Result<Seq<char>, ErrorView> {
    match r {
        Ok(s) => Ok(s@),
        Err(e) => Err(e@),
    }
}

/// Concatenates the contents of a sequence of text tokens. Any other token
/// fails with `NonTextToken`.
pub fn concat_all_text(tokens: Vec<Token>) -> (r: Result<String, MacroError>)
    ensures
        text_result(r) == emit(toks(tokens@)),
{
    let ghost t = toks(tokens@);
    let mut out_string = String::new();
    let mut i: usize = 0;
    assert(t.take(0) =~= Seq::<TokenView>::empty());
    while i < tokens.len()
        invariant
            i <= tokens@.len(),
            t == toks(tokens@),
            all_text(t.take(i as int)),
            out_string@ == joined(t.take(i as int)),
        decreases tokens@.len() - i,
    {
        assert(t[i as int] == tokens@[i as int]@);
        match &tokens[i] {
            Token::Text(val) => {
                out_string.append(val.as_str());
                assert(t.take(i + 1).drop_last() =~= t.take(i as int));
                assert forall|j: int| 0 <= j < i + 1 implies #[trigger] t.take(i + 1)[j] is Text by {
                    if j < i {
                        assert(t.take(i + 1)[j] == t.take(i as int)[j]);
                    }
                }
            },
            _ => {
                assert(!(t[i as int] is Text));
                return Err(MacroError::NonTextToken);
            },
        }
        i += 1;
    }
    assert(t.take(i as int) =~= t);
    Ok(out_string)
}

} // verus!
