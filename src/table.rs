use vstd::prelude::*;
use crate::text::{lemma_run_bounds, lemma_run_exact, run_while};
use crate::token::{ErrorView, MacroError, Token, TokenView, toks};

verus! {

/// One definition: a name and its unresolved right-hand side.
struct Binding {
    name: String,
    body: Vec<Token>,
}

/// The map that a list of bindings stands for; a later binding of a name
/// shadows an earlier one.
spec fn bindings_map(b: Seq<Binding>) -> Map<Seq<char>, Seq<TokenView>>
    decreases b.len(),
{
    if b.len() == 0 {
        Map::empty()
    } else {
        bindings_map(b.drop_last()).insert(b.last().name@, toks(b.last().body@))
    }
}

spec fn names_unique(b: Seq<Binding>) -> bool {
    forall|i: int, j: int| 0 <= i < j < b.len() ==> b[i].name@ != b[j].name@
}

proof fn lemma_map_index(b: Seq<Binding>, i: int)
    requires
        names_unique(b),
        0 <= i < b.len(),
    ensures
        bindings_map(b).contains_key(b[i].name@),
        bindings_map(b)[b[i].name@] == toks(b[i].body@),
    decreases b.len(),
{
    if i < b.len() - 1 {
        assert(b.drop_last()[i] == b[i]);
        lemma_map_index(b.drop_last(), i);
    }
}

proof fn lemma_map_missing(b: Seq<Binding>, k: Seq<char>)
    requires
        forall|i: int| 0 <= i < b.len() ==> (#[trigger] b[i]).name@ != k,
    ensures
        !bindings_map(b).contains_key(k),
    decreases b.len(),
{
    if b.len() > 0 {
        assert forall|i: int| 0 <= i < b.drop_last().len() implies (#[trigger] b.drop_last()[i]).name@ != k by {
            assert(b.drop_last()[i] == b[i]);
        }
        lemma_map_missing(b.drop_last(), k);
    }
}

proof fn lemma_map_update(b: Seq<Binding>, i: int, x: Binding)
    requires
        names_unique(b),
        0 <= i < b.len(),
        x.name@ == b[i].name@,
    ensures
        bindings_map(b.update(i, x)) == bindings_map(b).insert(x.name@, toks(x.body@)),
    decreases b.len(),
{
    let u = b.update(i, x);
    if i == b.len() - 1 {
        assert(u.drop_last() =~= b.drop_last());
        assert(bindings_map(u) =~= bindings_map(b).insert(x.name@, toks(x.body@)));
    } else {
        assert(u.drop_last() =~= b.drop_last().update(i, x));
        lemma_map_update(b.drop_last(), i, x);
        assert(b.last().name@ != x.name@);
        assert(bindings_map(u) =~= bindings_map(b).insert(x.name@, toks(x.body@)));
    }
}

proof fn lemma_map_finite(b: Seq<Binding>)
    ensures
        bindings_map(b).dom().finite(),
    decreases b.len(),
{
    if b.len() > 0 {
        lemma_map_finite(b.drop_last());
    }
}

/// A flat table from variable names to their definitions; the last
/// definition of a name wins.
pub struct SymbolTable {
    bindings: Vec<Binding>,
}

impl View for SymbolTable {
    type V = Map<Seq<char>, Seq<TokenView>>;

    closed spec fn view(&self) -> Map<Seq<char>, Seq<TokenView>> {
        bindings_map(self.bindings@)
    }
}

impl SymbolTable {
    /// Each name is bound once.
    pub closed spec fn wf(&self) -> bool {
        names_unique(self.bindings@)
    }

    /// A well-formed table has finitely many names.
    pub proof fn lemma_finite(&self)
        ensures
            self@.dom().finite(),
    {
        lemma_map_finite(self.bindings@);
    }

    /// The empty table.
    pub fn new() -> (r: SymbolTable)
        ensures
            r.wf(),
            r@ == Map::<Seq<char>, Seq<TokenView>>::empty(),
    {
        SymbolTable { bindings: Vec::new() }
    }

    /// Position of the binding of `name`, if there is one.
    fn position(&self, name: &String) -> (r: Option<usize>)
        requires
            self.wf(),
        ensures
            match r {
                Some(i) => i < self.bindings@.len() && self.bindings@[i as int].name@ == name@,
                None => forall|i: int|
                    0 <= i < self.bindings@.len() ==> (#[trigger] self.bindings@[i]).name@ != name@,
            },
    {
        let mut i: usize = 0;
        while i < self.bindings.len()
            invariant
                i <= self.bindings@.len(),
                forall|j: int| 0 <= j < i ==> (#[trigger] self.bindings@[j]).name@ != name@,
            decreases self.bindings@.len() - i,
        {
            if self.bindings[i].name == *name {
                return Some(i);
            }
            i += 1;
        }
        None
    }

    /// Binds `name` to `body`, replacing an earlier definition of `name`.
    pub fn insert(&mut self, name: String, body: Vec<Token>)
        requires
            old(self).wf(),
        ensures
            final(self).wf(),
            final(self)@ == old(self)@.insert(name@, toks(body@)),
    {
        match self.position(&name) {
            Some(i) => {
                let x = Binding { name, body };
                proof {
                    lemma_map_update(self.bindings@, i as int, x);
                }
                self.bindings.set(i, x);
            },
            None => {
                let x = Binding { name, body };
                let ghost before = self.bindings@;
                self.bindings.push(x);
                assert(self.bindings@.drop_last() =~= before);
            },
        }
    }

    /// The definition of `name`, if it has one.
    pub fn get(&self, name: &String) -> (r: Option<&Vec<Token>>)
        requires
            self.wf(),
        ensures
            match r {
                Some(body) => self@.contains_key(name@) && self@[name@] == toks(body@),
                None => !self@.contains_key(name@),
            },
    {
        match self.position(name) {
            Some(i) => {
                proof {
                    lemma_map_index(self.bindings@, i as int);
                }
                Some(&self.bindings[i].body)
            },
            None => {
                proof {
                    lemma_map_missing(self.bindings@, name@);
                }
                None
            },
        }
    }

    /// Whether `name` has a definition.
    pub fn contains_key(&self, name: &String) -> (r: bool)
        requires
            self.wf(),
        ensures
            r == self@.contains_key(name@),
    {
        self.get(name).is_some()
    }
}


/// Holds of every token but a line break.
pub open spec fn within_line() -> spec_fn(TokenView) -> bool {
    |t: TokenView| !(t is NewLine)
}

/// Adds the statements of `t` to `m`, in order.
///
/// Each statement is an identifier, `=`, and the tokens up to the next line
/// break (or the end) as its body; blank lines are skipped.
pub open spec fn build(t: Seq<TokenView>, m: Map<Seq<char>, Seq<TokenView>>) -> Result<
    Map<Seq<char>, Seq<TokenView>>,
    ErrorView,
>
    decreases t.len(),
{
    if t.len() == 0 {
        Ok(m)
    } else if t[0] is NewLine {
        build(t.drop_first(), m)
    } else if t[0] is Ident {
        if t.len() >= 2 && t[1] is Assign {
            let k = run_while(t.skip(2), within_line()) as int;
            proof {
                lemma_run_bounds(t.skip(2), within_line());
            }
            let m2 = m.insert(t[0]->Ident_0, t.subrange(2, 2 + k));
            if 2 + k == t.len() {
                Ok(m2)
            } else {
                build(t.skip(3 + k), m2)
            }
        } else {
            Err(ErrorView::ExpectedAssign)
        }
    } else {
        Err(ErrorView::ExpectedIdentifier)
    }
}

/// The symbol table of a whole token sequence.
pub open spec fn statements(t: Seq<TokenView>) -> Result<Map<Seq<char>, Seq<TokenView>>, ErrorView> {
    build(t, Map::empty())
}

/// The models of a statement builder's result.
pub open spec fn built(r: Result<SymbolTable, MacroError>) -> Result<
    Map<Seq<char>, Seq<TokenView>>,
    ErrorView,
> {
    match r {
        Ok(table) => Ok(table@),
        Err(e) => Err(e@),
    }
}

/// End of the statement body that starts at `from`: the next line break, or the end.
fn body_end(tokens: &Vec<Token>, from: usize) -> (r: usize)
    requires
        from <= tokens@.len(),
    ensures
        from <= r <= tokens@.len(),
        r - from == run_while(toks(tokens@).skip(from as int), within_line()),
{
    let ghost t = toks(tokens@);
    let mut i = from;
    while i < tokens.len() && !matches!(tokens[i], Token::NewLine)
        invariant
            from <= i <= tokens@.len(),
            t == toks(tokens@),
            forall|j: int| from <= j < i ==> !(#[trigger] t[j] is NewLine),
        decreases tokens@.len() - i,
    {
        i += 1;
    }
    let ghost rest = t.skip(from as int);
    assert forall|j: int| 0 <= j < i - from implies #[trigger] within_line()(rest[j]) by {
        assert(rest[j] == t[from + j]);
    }
    if i < tokens.len() {
        assert(rest[i - from] == t[i as int]);
    }
    proof {
        lemma_run_exact(rest, within_line(), i - from);
    }
    i
}

/// Builds the symbol table from a token sequence, statement by statement.
///
/// A statement that does not start with an identifier fails with
/// `ExpectedIdentifier`; an identifier not followed by `=` fails with
/// `ExpectedAssign`. The last statement may end without a line break.
pub fn build_table(tokens: &Vec<Token>) -> (r: Result<SymbolTable, MacroError>)
    ensures
        built(r) == statements(toks(tokens@)),
        r matches Ok(table) ==> table.wf(),
{
    let ghost t = toks(tokens@);
    let n = tokens.len();
    let mut table = SymbolTable::new();
    let mut i: usize = 0;
    assert(t.skip(0) =~= t);
    while i < n
        invariant
            n == tokens@.len(),
            t == toks(tokens@),
            i <= n,
            table.wf(),
            statements(t) == build(t.skip(i as int), table@),
        decreases n - i,
    {
        let ghost rest = t.skip(i as int);
        assert(rest[0] == t[i as int]);
        match &tokens[i] {
            Token::NewLine => {
                assert(rest.drop_first() =~= t.skip(i + 1));
                i += 1;
            },
            Token::Ident(name) => {
                if i + 1 < n && matches!(tokens[i + 1], Token::Assign) {
                    assert(rest[1] == t[i + 1]);
                    let k = body_end(tokens, i + 2);
                    assert(rest.skip(2) =~= t.skip(i + 2));
                    let mut body: Vec<Token> = Vec::new();
                    let mut j = i + 2;
                    while j < k
                        invariant
                            i + 2 <= j <= k <= n,
                            n == tokens@.len(),
                            t == toks(tokens@),
                            toks(body@) == t.subrange(i + 2, j as int),
                        decreases k - j,
                    {
                        assert(t[j as int] == tokens@[j as int]@);
                        let ghost before = body@;
                        let d = tokens[j].duplicate();
                        body.push(d);
                        assert(toks(body@) =~= toks(before).push(d@));
                        assert(toks(body@) =~= t.subrange(i + 2, j + 1));
                        j += 1;
                    }
                    assert(rest.subrange(2, k - i) =~= t.subrange(i + 2, k as int));
                    table.insert(name.clone(), body);
                    if k == n {
                        return Ok(table);
                    }
                    assert(rest.skip(3 + k - i - 2) =~= t.skip(k + 1));
                    i = k + 1;
                } else {
                    if i + 1 < n {
                        assert(rest[1] == t[i + 1]);
                    }
                    return Err(MacroError::ExpectedAssign);
                }
            },
            _ => {
                return Err(MacroError::ExpectedIdentifier);
            },
        }
    }
    assert(t.skip(n as int) =~= Seq::<TokenView>::empty());
    Ok(table)
}

} // verus!
