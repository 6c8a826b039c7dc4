use vstd::prelude::*;
use crate::emitter::{concat_all_text, emit, text_result};
use crate::lexer::{lex, tokenize};
use crate::resolver::expand_name;
use crate::table::{build_table, statements};
use crate::token::{ErrorView, MacroError, Token, TokenView};

verus! {

/// The name whose expansion is a program's output.
pub open spec fn out_name() -> Seq<char> {
    seq!['o', 'u', 't']
}

/// The symbol table of source text `src`.
pub open spec fn program_table(src: Seq<char>) -> Result<Map<Seq<char>, Seq<TokenView>>, ErrorView> {
    match lex(src) {
        Ok(ts) => statements(ts),
        Err(e) => Err(e),
    }
}

/// The output for a symbol table: the expansion of `out`, concatenated.
pub open spec fn table_output(m: Map<Seq<char>, Seq<TokenView>>) -> Result<Seq<char>, ErrorView> {
    if !m.contains_key(out_name()) {
        Err(ErrorView::MissingOut)
    } else {
        match expand_name(m, out_name()) {
            Ok(ts) => emit(ts),
            Err(e) => Err(e),
        }
    }
}

/// The output of source text `src`.
pub open spec fn program_output(src: Seq<char>) -> Result<Seq<char>, ErrorView> {
    match program_table(src) {
        Ok(m) => table_output(m),
        Err(e) => Err(e),
    }
}

/// Runs a whole program: tokenizes `source`, builds its symbol table, expands
/// `out` and concatenates the resulting text. Any error stops the run and no
/// output is produced.
pub fn compile(source: &str) -> (r: Result<String, MacroError>)
    ensures
        text_result(r) == program_output(source@),
{
    let tokens = match tokenize(String::from_str(source)) {
        Ok(tokens) => tokens,
        Err(e) => return Err(e),
    };
    let table = match build_table(&tokens) {
        Ok(table) => table,
        Err(e) => return Err(e),
    };
    let out = String::from_str("out");
    proof {
        reveal_strlit("out");
    }
    assert(out@ == out_name());
    if !table.contains_key(&out) {
        return Err(MacroError::MissingOut);
    }
    let resolved = match Token::Ident(out).unwrap(&table) {
        Ok(resolved) => resolved,
        Err(e) => return Err(e),
    };
    concat_all_text(resolved)
}

} // verus!
