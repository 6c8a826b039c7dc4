use vstd::prelude::*;
use vstd::set_lib::lemma_len_subset;
use crate::table::SymbolTable;
use crate::text::{chars_of, push_char};
use crate::token::{
    lemma_prepend_empty, lemma_prepend_prepend, prepend, ErrorView, MacroError, Token, TokenView,
    token_result, toks,
};

verus! {

/// The hex digits of an address literal: what follows its two-character prefix.
pub open spec fn hex_digits(a: Seq<char>) -> Seq<char> {
    if a.len() >= 2 {
        a.skip(2)
    } else {
        Seq::empty()
    }
}

/// `h` made of whole bytes: a `0` in front when its length is odd.
pub open spec fn pad_even(h: Seq<char>) -> Seq<char> {
    if h.len() % 2 == 1 {
        seq!['0'] + h
    } else {
        h
    }
}

/// One `\xHH` escape for each two-digit group of `p`, the last group first.
pub open spec fn escapes_reversed(p: Seq<char>) -> Seq<char>
    decreases p.len(),
{
    if p.len() < 2 {
        Seq::empty()
    } else {
        seq!['\\', 'x', p[p.len() - 2], p[p.len() - 1]] + escapes_reversed(p.take(p.len() - 2))
    }
}

/// The text that an address literal expands to: its bytes in little-endian order.
pub open spec fn encode(a: Seq<char>) -> Seq<char> {
    escapes_reversed(pad_even(hex_digits(a)))
}

/// Expands one token; `stack` holds the names whose expansion is in progress.
pub open spec fn expand_token(
    t: Map<Seq<char>, Seq<TokenView>>,
    stack: Seq<Seq<char>>,
    tok: TokenView,
) -> Result<Seq<TokenView>, ErrorView>
    decreases t.dom().len() - stack.len(), 0int,
{
    match tok {
        TokenView::Ident(n) => {
            if stack.contains(n) {
                Err(ErrorView::CyclicDefinition(n))
            } else if !t.contains_key(n) {
                Err(ErrorView::UndefinedVariable(n))
            } else if stack.len() >= t.dom().len() {
                // cannot happen while `stack` lists distinct names of `t`
                Err(ErrorView::CyclicDefinition(n))
            } else {
                expand_body(t, stack.push(n), t[n])
            }
        },
        TokenView::Address(a) => Ok(seq![TokenView::Text(encode(a))]),
        TokenView::Text(s) => Ok(seq![TokenView::Text(s)]),
        _ => Ok(Seq::empty()),
    }
}

/// Expands a definition body, token by token, depth-first and left to right.
pub open spec fn expand_body(
    t: Map<Seq<char>, Seq<TokenView>>,
    stack: Seq<Seq<char>>,
    body: Seq<TokenView>,
) -> Result<Seq<TokenView>, ErrorView>
    decreases t.dom().len() - stack.len(), body.len(),
{
    if body.len() == 0 {
        Ok(Seq::empty())
    } else {
        match expand_token(t, stack, body[0]) {
            Ok(first) => prepend(first, expand_body(t, stack, body.drop_first())),
            Err(e) => Err(e),
        }
    }
}

/// The expansion of `name` from an empty stack.
pub open spec fn expand_name(t: Map<Seq<char>, Seq<TokenView>>, name: Seq<char>) -> Result<
    Seq<TokenView>,
    ErrorView,
> {
    expand_token(t, Seq::empty(), TokenView::Ident(name))
}

pub open spec fn names(v: Seq<String>) -> Seq<Seq<char>> {
    v.map_values(|s: String| s@)
}

/// A stack of distinct names, that are all names of `t`, is shorter than the
/// name set of `t` as long as a name of `t` is missing from it.
pub proof fn lemma_stack_shorter(
    t: Map<Seq<char>, Seq<TokenView>>,
    stack: Seq<Seq<char>>,
    n: Seq<char>,
)
    requires
        t.dom().finite(),
        stack.no_duplicates(),
        forall|i: int| 0 <= i < stack.len() ==> t.contains_key(#[trigger] stack[i]),
        t.contains_key(n),
        !stack.contains(n),
    ensures
        stack.len() < t.dom().len(),
{
    stack.unique_seq_to_set();
    assert(stack.to_set().insert(n).subset_of(t.dom()));
    lemma_len_subset(stack.to_set().insert(n), t.dom());
    assert(!stack.to_set().contains(n));
}

/// The text that an address literal stands for: the hex digits after its
/// two-character prefix, padded with a leading `0` to whole bytes, as `\xHH`
/// escapes from the last byte to the first.
pub fn encode_address(address: &String) -> (r: String)
    ensures
        r@ == encode(address@),
{
    let a = chars_of(address.as_str());
    let mut p: Vec<char> = Vec::new();
    if a.len() >= 2 {
        if (a.len() - 2) % 2 == 1 {
            p.push('0');
        }
        let mut i: usize = 2;
        let ghost start = p@;
        while i < a.len()
            invariant
                2 <= i <= a@.len(),
                p@ == start + a@.subrange(2, i as int),
            decreases a@.len() - i,
        {
            p.push(a[i]);
            assert(p@ =~= start + a@.subrange(2, i + 1));
            i += 1;
        }
        assert(a@.subrange(2, a@.len() as int) =~= a@.skip(2));
        if (a.len() - 2) % 2 == 1 {
            assert(p@ =~= seq!['0'] + a@.skip(2));
        } else {
            assert(p@ =~= a@.skip(2));
        }
    }
    assert(p@ == pad_even(hex_digits(a@)));
    assert(p@.len() % 2 == 0);
    let mut r = String::new();
    let mut k: usize = p.len();
    assert(p@.take(k as int) =~= p@);
    while k >= 2
        invariant
            k <= p@.len(),
            k % 2 == 0,
            escapes_reversed(p@) == r@ + escapes_reversed(p@.take(k as int)),
        decreases k,
    {
        let ghost before = r@;
        let ghost q = p@.take(k as int);
        assert(q.take(k - 2) =~= p@.take(k - 2));
        push_char(&mut r, '\\');
        push_char(&mut r, 'x');
        push_char(&mut r, p[k - 2]);
        push_char(&mut r, p[k - 1]);
        assert(r@ =~= before + seq!['\\', 'x', q[q.len() - 2], q[q.len() - 1]]);
        assert(before + escapes_reversed(q) =~= r@ + escapes_reversed(p@.take(k - 2)));
        k -= 2;
    }
    assert(escapes_reversed(p@.take(k as int)) =~= Seq::<char>::empty());
    assert(r@ + Seq::<char>::empty() =~= r@);
    r
}

/// Whether `name` is on `stack`.
fn on_stack(stack: &Vec<String>, name: &String) -> (r: bool)
    ensures
        r == names(stack@).contains(name@),
{
    let mut i: usize = 0;
    while i < stack.len()
        invariant
            i <= stack@.len(),
            forall|j: int| 0 <= j < i ==> names(stack@)[j] != name@,
        decreases stack@.len() - i,
    {
        if stack[i] == *name {
            assert(names(stack@)[i as int] == name@);
            return true;
        }
        i += 1;
    }
    false
}

impl Token {
    /// Expands this token against `table`: an identifier becomes the expansion
    /// of its definition, an address becomes its byte escapes, text stays as it
    /// is. The result holds text tokens only.
    ///
    /// A reference to a name without a definition fails with
    /// `UndefinedVariable`; a reference to a name whose expansion is already in
    /// progress fails with `CyclicDefinition`.
    pub fn unwrap(&self, table: &SymbolTable) -> (r: Result<Vec<Token>, MacroError>)
        requires
            table.wf(),
        ensures
            token_result(r) == expand_token(table@, Seq::empty(), self@),
    {
        let mut stack: Vec<String> = Vec::new();
        assert(names(stack@) =~= Seq::<Seq<char>>::empty());
        self.expand_with(table, &mut stack)
    }

    fn expand_with(&self, table: &SymbolTable, stack: &mut Vec<String>) -> (r: Result<
        Vec<Token>,
        MacroError,
    >)
        requires
            table.wf(),
            names(old(stack)@).no_duplicates(),
            forall|i: int|
                0 <= i < old(stack)@.len() ==> table@.contains_key(#[trigger] names(old(stack)@)[i]),
        ensures
            final(stack)@ == old(stack)@,
            token_result(r) == expand_token(table@, names(old(stack)@), self@),
        decreases table@.dom().len() - old(stack)@.len(),
    {
        let ghost t = table@;
        let ghost st = names(stack@);
        match self {
            Token::Ident(name) => {
                if on_stack(stack, name) {
                    return Err(MacroError::CyclicDefinition(name.clone()));
                }
                match table.get(name) {
                    None => Err(MacroError::UndefinedVariable(name.clone())),
                    Some(body) => {
                        proof {
                            table.lemma_finite();
                            lemma_stack_shorter(t, st, name@);
                        }
                        let ghost start = stack@;
                        stack.push(name.clone());
                        let ghost inner = names(stack@);
                        assert(inner =~= st.push(name@));
                        let ghost b = toks(body@);
                        let mut out: Vec<Token> = Vec::new();
                        let mut i: usize = 0;
                        assert(b.skip(0) =~= b);
                        proof {
                            lemma_prepend_empty(expand_body(t, inner, b));
                        }
                        assert(expand_token(t, st, self@) == expand_body(t, inner, b));
                        while i < body.len()
                            invariant
                                expand_token(t, st, self@) == expand_body(t, inner, b),
                                t == table@,
                                table.wf(),
                                b == toks(body@),
                                i <= b.len(),
                                stack@ == start.push(*name),
                                start == old(stack)@,
                                st == names(start),
                                inner == names(stack@),
                                inner.no_duplicates(),
                                forall|j: int|
                                    0 <= j < inner.len() ==> t.contains_key(#[trigger] inner[j]),
                                inner.len() == st.len() + 1,
                                st.len() < t.dom().len(),
                                expand_body(t, inner, b) == prepend(
                                    toks(out@),
                                    expand_body(t, inner, b.skip(i as int)),
                                ),
                            decreases b.len() - i,
                        {
                            let ghost rest = b.skip(i as int);
                            assert(rest[0] == b[i as int]);
                            assert(b[i as int] == body@[i as int]@);
                            assert(rest.drop_first() =~= b.skip(i + 1));
                            match body[i].expand_with(table, stack) {
                                Err(e) => {
                                    stack.pop();
                                    assert(start.push(*name).drop_last() =~= start);
                                    assert(expand_token(t, inner, rest[0]) == Err::<Seq<TokenView>, ErrorView>(e@));
                                    assert(expand_body(t, inner, rest) == Err::<Seq<TokenView>, ErrorView>(e@));
                                    assert(expand_body(t, inner, b) == Err::<Seq<TokenView>, ErrorView>(e@));
                                    return Err(e);
                                },
                                Ok(part) => {
                                    let ghost before = toks(out@);
                                    let mut part = part;
                                    let ghost pv = toks(part@);
                                    out.append(&mut part);
                                    assert(toks(out@) =~= before + pv);
                                    proof {
                                        lemma_prepend_prepend(
                                            before,
                                            pv,
                                            expand_body(t, inner, b.skip(i + 1)),
                                        );
                                    }
                                },
                            }
                            i += 1;
                        }
                        stack.pop();
                        assert(start.push(*name).drop_last() =~= start);
                        assert(b.skip(i as int) =~= Seq::<TokenView>::empty());
                        assert(toks(out@) + Seq::<TokenView>::empty() =~= toks(out@));
                        Ok(out)
                    },
                }
            },
            Token::Address(a) => {
                let text = encode_address(a);
                let v = vec![Token::Text(text)];
                assert(toks(v@) =~= seq![TokenView::Text(encode(a@))]);
                Ok(v)
            },
            Token::Text(s) => {
                let v = vec![Token::Text(s.clone())];
                assert(toks(v@) =~= seq![TokenView::Text(s@)]);
                Ok(v)
            },
            _ => {
                let v: Vec<Token> = Vec::new();
                assert(toks(v@) =~= Seq::<TokenView>::empty());
                Ok(v)
            },
        }
    }
}

} // verus!
