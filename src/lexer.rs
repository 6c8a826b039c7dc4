use vstd::prelude::*;
use crate::text::{chars_of, lemma_run_bounds, lemma_run_exact, run_while, string_of};
use crate::token::{
    lemma_prepend_empty, lemma_prepend_prepend, prepend, ErrorView, MacroError, Token, TokenView,
    token_result, toks,
};

verus! {

/// Horizontal whitespace, skipped between tokens.
pub open spec fn is_blank(c: char) -> bool {
    c == ' ' || c == '\t'
}

pub open spec fn is_ascii_alnum(c: char) -> bool {
    ('a' <= c && c <= 'z') || ('A' <= c && c <= 'Z') || ('0' <= c && c <= '9')
}

/// Whether Unicode counts `c` as alphabetic or numeric.
pub uninterp spec fn unicode_alnum(c: char) -> bool;

/// A character of an identifier or an address: an ASCII letter or digit, or a
/// non-ASCII character that Unicode counts as alphabetic or numeric.
pub open spec fn is_word_char(c: char) -> bool {
    if (c as u32) < 128 {
        is_ascii_alnum(c)
    } else {
        unicode_alnum(c)
    }
}

pub open spec fn blank() -> spec_fn(char) -> bool {
    |c: char| is_blank(c)
}

pub open spec fn word() -> spec_fn(char) -> bool {
    |c: char| is_word_char(c)
}

/// Holds of every character but `d`.
pub open spec fn other_than(d: char) -> spec_fn(char) -> bool {
    |c: char| c != d
}

/// The tokens of source text `s`, scanned left to right.
pub open spec fn lex(s: Seq<char>) -> Result<Seq<TokenView>, ErrorView>
    decreases s.len(),
{
    if s.len() == 0 {
        Ok(Seq::empty())
    } else if is_blank(s[0]) {
        lex(s.drop_first())
    } else if s.len() >= 2 && s[0] == '/' && s[1] == '/' {
        // a comment runs up to the line break, which stays
        let k = 2 + run_while(s.skip(2), other_than('\n')) as int;
        proof {
            lemma_run_bounds(s.skip(2), other_than('\n'));
        }
        lex(s.skip(k))
    } else if s[0] == '"' {
        let k = run_while(s.drop_first(), other_than('"')) as int;
        proof {
            lemma_run_bounds(s.drop_first(), other_than('"'));
        }
        if k + 1 == s.len() {
            Err(ErrorView::UnterminatedText)
        } else {
            prepend(seq![TokenView::Text(s.subrange(1, k + 1))], lex(s.skip(k + 2)))
        }
    } else if s.len() >= 2 && s[0] == '0' && s[1] == 'x' {
        let k = 2 + run_while(s.skip(2), word()) as int;
        proof {
            lemma_run_bounds(s.skip(2), word());
        }
        if k == s.len() {
            Err(ErrorView::UnterminatedAddress)
        } else {
            prepend(seq![TokenView::Address(s.take(k))], lex(s.skip(k)))
        }
    } else if s[0] == '=' {
        prepend(seq![TokenView::Assign], lex(s.drop_first()))
    } else if s[0] == '\n' {
        prepend(seq![TokenView::NewLine], lex(s.drop_first()))
    } else if is_word_char(s[0]) {
        let k = run_while(s, word()) as int;
        proof {
            lemma_run_bounds(s, word());
        }
        prepend(seq![TokenView::Ident(s.take(k))], lex(s.skip(k)))
    } else {
        lex(s.drop_first())
    }
}

/// Relies on `char::is_alphanumeric`: whether Unicode counts `c` as alphabetic
/// or numeric.
#[verifier::external_body]
fn alphanumeric(c: char) -> (r: bool)
    ensures
        r == unicode_alnum(c),
{
    c.is_alphanumeric()
}

fn word_char(c: char) -> (r: bool)
    ensures
        r == is_word_char(c),
{
    if (c as u32) < 128 {
        ('a' <= c && c <= 'z') || ('A' <= c && c <= 'Z') || ('0' <= c && c <= '9')
    } else {
        alphanumeric(c)
    }
}

/// End of the run of word characters that starts at `from`.
fn scan_word(chars: &Vec<char>, from: usize) -> (r: usize)
    requires
        from <= chars@.len(),
    ensures
        from <= r <= chars@.len(),
        r - from == run_while(chars@.skip(from as int), word()),
{
    let mut i = from;
    while i < chars.len() && word_char(chars[i])
        invariant
            from <= i <= chars@.len(),
            forall|j: int| from <= j < i ==> is_word_char(#[trigger] chars@[j]),
        decreases chars@.len() - i,
    {
        i += 1;
    }
    let ghost rest = chars@.skip(from as int);
    assert forall|j: int| 0 <= j < i - from implies #[trigger] word()(rest[j]) by {
        assert(rest[j] == chars@[from + j]);
    }
    if i < chars.len() {
        assert(rest[i - from] == chars@[i as int]);
    }
    proof {
        lemma_run_exact(rest, word(), i - from);
    }
    i
}

/// Position of the first `d` at or after `from`, or the end.
fn scan_until(chars: &Vec<char>, from: usize, d: char) -> (r: usize)
    requires
        from <= chars@.len(),
    ensures
        from <= r <= chars@.len(),
        r - from == run_while(chars@.skip(from as int), other_than(d)),
{
    let mut i = from;
    while i < chars.len() && chars[i] != d
        invariant
            from <= i <= chars@.len(),
            forall|j: int| from <= j < i ==> #[trigger] chars@[j] != d,
        decreases chars@.len() - i,
    {
        i += 1;
    }
    let ghost rest = chars@.skip(from as int);
    assert forall|j: int| 0 <= j < i - from implies #[trigger] other_than(d)(rest[j]) by {
        assert(rest[j] == chars@[from + j]);
    }
    if i < chars.len() {
        assert(rest[i - from] == chars@[i as int]);
    }
    proof {
        lemma_run_exact(rest, other_than(d), i - from);
    }
    i
}

/// Splits source text into tokens.
///
/// Spaces and tabs are skipped; `//` starts a comment that runs up to the line
/// break; `"..."` is text, taken verbatim; `0x` and the word characters after
/// it are an address; a run of word characters is an identifier; `=` and the
/// line break are tokens of their own; any other character is dropped. A quoted
/// literal without its closing quote, or an address that runs up to the end of
/// the input, is an error.
pub fn tokenize(content: String) -> (r: Result<Vec<Token>, MacroError>)
    ensures
        token_result(r) == lex(content@),
{
    let chars = chars_of(content.as_str());
    let ghost s = chars@;
    assert(s == content@);
    let n = chars.len();
    let mut tokens: Vec<Token> = Vec::new();
    let mut i: usize = 0;
    assert(s.skip(0) =~= s);
    proof {
        lemma_prepend_empty(lex(s));
    }
    while i < n
        invariant
            n == chars@.len(),
            s == chars@,
            s == content@,
            i <= n,
            lex(s) == prepend(toks(tokens@), lex(s.skip(i as int))),
        decreases n - i,
    {
        let ghost rest = s.skip(i as int);
        let ghost before = toks(tokens@);
        assert(rest[0] == chars@[i as int]);
        let c = chars[i];
        if c == ' ' || c == '\t' {
            assert(rest.drop_first() =~= s.skip(i + 1));
            i += 1;
        } else if c == '/' && i + 1 < n && chars[i + 1] == '/' {
            assert(rest[1] == chars@[i + 1]);
            let k = scan_until(&chars, i + 2, '\n');
            assert(rest.skip(2) =~= s.skip(i + 2));
            assert(rest.skip(k - i) =~= s.skip(k as int));
            i = k;
        } else if c == '"' {
            let k = scan_until(&chars, i + 1, '"');
            assert(rest.drop_first() =~= s.skip(i + 1));
            if k == n {
                assert(lex(rest) == Err::<Seq<TokenView>, ErrorView>(ErrorView::UnterminatedText));
                return Err(MacroError::UnterminatedText);
            }
            let text = string_of(&chars, i + 1, k);
            assert(rest.subrange(1, k - i) =~= s.subrange(i + 1, k as int));
            assert(rest.skip(k - i + 1) =~= s.skip(k + 1));
            tokens.push(Token::Text(text));
            assert(toks(tokens@) =~= before + seq![TokenView::Text(rest.subrange(1, k - i))]);
            proof {
                lemma_prepend_prepend(before, seq![TokenView::Text(rest.subrange(1, k - i))], lex(s.skip(k + 1)));
            }
            i = k + 1;
        } else if c == '0' && i + 1 < n && chars[i + 1] == 'x' {
            assert(rest[1] == chars@[i + 1]);
            let k = scan_word(&chars, i + 2);
            assert(rest.skip(2) =~= s.skip(i + 2));
            if k == n {
                assert(lex(rest) == Err::<Seq<TokenView>, ErrorView>(ErrorView::UnterminatedAddress));
                return Err(MacroError::UnterminatedAddress);
            }
            let address = string_of(&chars, i, k);
            assert(rest.take(k - i) =~= s.subrange(i as int, k as int));
            assert(rest.skip(k - i) =~= s.skip(k as int));
            tokens.push(Token::Address(address));
            assert(toks(tokens@) =~= before + seq![TokenView::Address(rest.take(k - i))]);
            proof {
                lemma_prepend_prepend(before, seq![TokenView::Address(rest.take(k - i))], lex(s.skip(k as int)));
            }
            i = k;
        } else if c == '=' {
            assert(rest.drop_first() =~= s.skip(i + 1));
            tokens.push(Token::Assign);
            assert(toks(tokens@) =~= before + seq![TokenView::Assign]);
            proof {
                lemma_prepend_prepend(before, seq![TokenView::Assign], lex(s.skip(i + 1)));
            }
            i += 1;
        } else if c == '\n' {
            assert(rest.drop_first() =~= s.skip(i + 1));
            tokens.push(Token::NewLine);
            assert(toks(tokens@) =~= before + seq![TokenView::NewLine]);
            proof {
                lemma_prepend_prepend(before, seq![TokenView::NewLine], lex(s.skip(i + 1)));
            }
            i += 1;
        } else if word_char(c) {
            let k = scan_word(&chars, i);
            proof {
                lemma_run_bounds(rest, word());
            }
            let ident = string_of(&chars, i, k);
            assert(rest.take(k - i) =~= s.subrange(i as int, k as int));
            assert(rest.skip(k - i) =~= s.skip(k as int));
            tokens.push(Token::Ident(ident));
            assert(toks(tokens@) =~= before + seq![TokenView::Ident(rest.take(k - i))]);
            proof {
                lemma_prepend_prepend(before, seq![TokenView::Ident(rest.take(k - i))], lex(s.skip(k as int)));
            }
            i = k;
        } else {
            assert(rest.drop_first() =~= s.skip(i + 1));
            i += 1;
        }
    }
    assert(s.skip(n as int) =~= Seq::<char>::empty());
    assert(toks(tokens@) + Seq::<TokenView>::empty() =~= toks(tokens@));
    Ok(tokens)
}


/// `s` without its leading spaces and tabs; line breaks are kept.
pub fn trim_start(s: String) -> (r: String)
    ensures
        r@ == s@.skip(run_while(s@, blank()) as int),
{
    let chars = chars_of(s.as_str());
    let mut i: usize = 0;
    while i < chars.len() && (chars[i] == ' ' || chars[i] == '\t')
        invariant
            i <= chars@.len(),
            forall|j: int| 0 <= j < i ==> is_blank(#[trigger] chars@[j]),
        decreases chars@.len() - i,
    {
        i += 1;
    }
    proof {
        assert forall|j: int| 0 <= j < i implies #[trigger] blank()(chars@[j]) by {}
        lemma_run_exact(chars@, blank(), i as int);
    }
    let r = string_of(&chars, i, chars.len());
    assert(r@ =~= s@.skip(i as int));
    r
}

} // verus!
