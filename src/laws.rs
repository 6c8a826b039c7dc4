use vstd::prelude::*;
use crate::emitter::{all_text, joined};
use crate::lexer::{blank, is_blank, lex, other_than, word};
use crate::program::{out_name, program_output, program_table};
use crate::resolver::{expand_body, expand_name, expand_token, lemma_stack_shorter};
use crate::table::{build, statements, within_line};
use crate::text::{lemma_run_append, lemma_run_bounds, lemma_run_exact, run_while};
use crate::token::{lemma_prepend_empty, lemma_prepend_prepend, prepend, ErrorView, TokenView};

verus! {

/// A line that holds nothing but spaces and tabs, optionally followed by a
/// `//` comment, and ends with its line break.
pub open spec fn is_filler_line(l: Seq<char>) -> bool {
    let k = run_while(l, blank()) as int;
    &&& l.len() > 0
    &&& l.last() == '\n'
    &&& forall|i: int| 0 <= i < l.len() - 1 ==> #[trigger] l[i] != '\n'
    &&& (l[k] == '\n' || (k + 1 < l.len() && l[k] == '/' && l[k + 1] == '/'))
}

proof fn lemma_run_stops_at_last<A>(s: Seq<A>, p: spec_fn(A) -> bool)
    requires
        s.len() > 0,
        !p(s.last()),
    ensures
        run_while(s, p) < s.len(),
{
    lemma_run_bounds(s, p);
    if run_while(s, p) == s.len() {
        assert(p(s[s.len() - 1]));
    }
}

/// Lexing text that ends with a line break, then more text, lexes each part
/// on its own.
proof fn lemma_lex_append(a: Seq<char>, r: Seq<char>)
    requires
        a.len() == 0 || a.last() == '\n',
        lex(a) is Ok,
    ensures
        lex(a + r) == prepend(lex(a)->Ok_0, lex(r)),
        a.len() > 0 ==> lex(a)->Ok_0.len() > 0 && lex(a)->Ok_0.last() is NewLine,
    decreases a.len(),
{
    let s = a + r;
    if a.len() == 0 {
        assert(s =~= r);
        lemma_prepend_empty(lex(r));
        return;
    }
    assert(s[0] == a[0]);
    if a.len() >= 2 {
        assert(s[1] == a[1]);
    }
    let c = a[0];
    if c != '\n' {
        assert(a.len() >= 2);
    }
    if is_blank(c) || (!(a.len() >= 2 && c == '/' && a[1] == '/') && c != '"' && !(a.len() >= 2
        && c == '0' && a[1] == 'x') && c != '=' && c != '\n' && !word()(c)) {
        assert(s.drop_first() =~= a.drop_first() + r);
        lemma_lex_append(a.drop_first(), r);
    } else if a.len() >= 2 && c == '/' && a[1] == '/' {
        let a2 = a.skip(2);
        assert(a2.last() == a.last());
        lemma_run_stops_at_last(a2, other_than('\n'));
        assert(s.skip(2) =~= a2 + r);
        lemma_run_append(a2, r, other_than('\n'));
        let k = 2 + run_while(a2, other_than('\n')) as int;
        assert(s.skip(k) =~= a.skip(k) + r);
        lemma_lex_append(a.skip(k), r);
    } else if c == '"' {
        let a1 = a.drop_first();
        let k = run_while(a1, other_than('"')) as int;
        lemma_run_bounds(a1, other_than('"'));
        assert(k + 1 != a.len());
        assert(s.drop_first() =~= a1 + r);
        lemma_run_append(a1, r, other_than('"'));
        assert(s.subrange(1, k + 1) =~= a.subrange(1, k + 1));
        assert(s.skip(k + 2) =~= a.skip(k + 2) + r);
        assert(a1[k] == '"');
        lemma_lex_append(a.skip(k + 2), r);
        let t = seq![TokenView::Text(a.subrange(1, k + 1))];
        lemma_prepend_prepend(t, lex(a.skip(k + 2))->Ok_0, lex(r));
    } else if a.len() >= 2 && c == '0' && a[1] == 'x' {
        let a2 = a.skip(2);
        let k = 2 + run_while(a2, word()) as int;
        lemma_run_bounds(a2, word());
        assert(k != a.len());
        assert(s.skip(2) =~= a2 + r);
        lemma_run_append(a2, r, word());
        assert(s.take(k) =~= a.take(k));
        assert(s.skip(k) =~= a.skip(k) + r);
        lemma_lex_append(a.skip(k), r);
        let t = seq![TokenView::Address(a.take(k))];
        lemma_prepend_prepend(t, lex(a.skip(k))->Ok_0, lex(r));
    } else if c == '=' || c == '\n' {
        assert(s.drop_first() =~= a.drop_first() + r);
        lemma_lex_append(a.drop_first(), r);
        let t = if c == '=' {
            seq![TokenView::Assign]
        } else {
            seq![TokenView::NewLine]
        };
        lemma_prepend_prepend(t, lex(a.drop_first())->Ok_0, lex(r));
    } else {
        assert(word()(c));
        assert(!word()(a.last()));
        lemma_run_stops_at_last(a, word());
        lemma_run_bounds(a, word());
        lemma_run_append(a, r, word());
        let k = run_while(a, word()) as int;
        assert(s.take(k) =~= a.take(k));
        assert(s.skip(k) =~= a.skip(k) + r);
        lemma_lex_append(a.skip(k), r);
        let t = seq![TokenView::Ident(a.take(k))];
        lemma_prepend_prepend(t, lex(a.skip(k))->Ok_0, lex(r));
    }
}

proof fn lemma_lex_skip_blanks(s: Seq<char>, k: int)
    requires
        0 <= k <= s.len(),
        forall|j: int| 0 <= j < k ==> is_blank(#[trigger] s[j]),
    ensures
        lex(s) == lex(s.skip(k)),
    decreases k,
{
    if k > 0 {
        assert(is_blank(s[0]));
        assert(s.drop_first().skip(k - 1) =~= s.skip(k));
        lemma_lex_skip_blanks(s.drop_first(), k - 1);
    } else {
        assert(s.skip(0) =~= s);
    }
}

/// A blank or comment-only line lexes to a single line break.
proof fn lemma_lex_filler(l: Seq<char>, b: Seq<char>)
    requires
        is_filler_line(l),
    ensures
        lex(l + b) == prepend(seq![TokenView::NewLine], lex(b)),
{
    let s = l + b;
    let kb = run_while(l, blank()) as int;
    lemma_run_bounds(l, blank());
    lemma_run_stops_at_last(l, blank());
    assert forall|j: int| 0 <= j < kb implies is_blank(#[trigger] s[j]) by {
        assert(s[j] == l[j]);
        assert(blank()(l[j]));
    }
    lemma_lex_skip_blanks(s, kb);
    let s1 = s.skip(kb);
    assert(s1[0] == l[kb]);
    if l[kb] == '\n' {
        assert(kb == l.len() - 1);
        assert(s1.drop_first() =~= b);
        assert(lex(s1) == prepend(seq![TokenView::NewLine], lex(s1.drop_first())));
    } else {
        assert(s1[1] == l[kb + 1]);
        let rest = l.skip(kb + 2);
        assert(kb + 2 < l.len());
        assert(s1.skip(2) =~= rest + b);
        let m = rest.len() - 1;
        assert forall|j: int| 0 <= j < m implies #[trigger] other_than('\n')((rest + b)[j]) by {
            assert((rest + b)[j] == l[kb + 2 + j]);
        }
        assert((rest + b)[m] == l.last());
        lemma_run_exact(rest + b, other_than('\n'), m);
        let k = 2 + m;
        assert(s1.skip(k) =~= seq!['\n'] + b);
        assert(lex(s1) == lex(s1.skip(k)));
        let s2 = seq!['\n'] + b;
        assert(s2[0] == '\n');
        assert(s2.drop_first() =~= b);
        assert(lex(s2) == prepend(seq![TokenView::NewLine], lex(s2.drop_first())));
    }
}

/// Building a table from statements that end with a line break, then from
/// more tokens, builds from each part in turn.
proof fn lemma_build_append(
    t1: Seq<TokenView>,
    t2: Seq<TokenView>,
    m: Map<Seq<char>, Seq<TokenView>>,
)
    requires
        t1.len() == 0 || t1.last() is NewLine,
    ensures
        build(t1 + t2, m) == match build(t1, m) {
            Ok(m1) => build(t2, m1),
            Err(e) => Err(e),
        },
    decreases t1.len(),
{
    let t = t1 + t2;
    if t1.len() == 0 {
        assert(t =~= t2);
        return;
    }
    assert(t[0] == t1[0]);
    if t1[0] is NewLine {
        assert(t.drop_first() =~= t1.drop_first() + t2);
        lemma_build_append(t1.drop_first(), t2, m);
    } else if t1[0] is Ident {
        assert(t1.len() >= 2);
        assert(t[1] == t1[1]);
        if t1[1] is Assign {
            let s1 = t1.skip(2);
            assert(s1.last() == t1.last());
            lemma_run_stops_at_last(s1, within_line());
            assert(t.skip(2) =~= s1 + t2);
            lemma_run_append(s1, t2, within_line());
            let k = run_while(s1, within_line()) as int;
            assert(t.subrange(2, 2 + k) =~= t1.subrange(2, 2 + k));
            assert(t.skip(3 + k) =~= t1.skip(3 + k) + t2);
            let m2 = m.insert(t1[0]->Ident_0, t1.subrange(2, 2 + k));
            lemma_build_append(t1.skip(3 + k), t2, m2);
            if 3 + k == t1.len() {
                assert(t1.skip(3 + k) =~= Seq::<TokenView>::empty());
            }
        }
    }
}

proof fn lemma_build_finite(t: Seq<TokenView>, m: Map<Seq<char>, Seq<TokenView>>)
    requires
        m.dom().finite(),
        build(t, m) is Ok,
    ensures
        build(t, m)->Ok_0.dom().finite(),
    decreases t.len(),
{
    if t.len() > 0 {
        if t[0] is NewLine {
            lemma_build_finite(t.drop_first(), m);
        } else {
            let k = run_while(t.skip(2), within_line()) as int;
            lemma_run_bounds(t.skip(2), within_line());
            let m2 = m.insert(t[0]->Ident_0, t.subrange(2, 2 + k));
            if 2 + k != t.len() {
                lemma_build_finite(t.skip(3 + k), m2);
            }
        }
    }
}

proof fn lemma_table_finite(src: Seq<char>)
    requires
        program_table(src) is Ok,
    ensures
        program_table(src)->Ok_0.dom().finite(),
{
    lemma_build_finite(lex(src)->Ok_0, Map::empty());
}

proof fn lemma_expand_text_body(
    t: Map<Seq<char>, Seq<TokenView>>,
    stack: Seq<Seq<char>>,
    body: Seq<TokenView>,
)
    requires
        all_text(body),
    ensures
        expand_body(t, stack, body) == Ok::<Seq<TokenView>, ErrorView>(body),
    decreases body.len(),
{
    if body.len() > 0 {
        assert(body[0] is Text);
        assert forall|i: int| 0 <= i < body.drop_first().len() implies #[trigger] body.drop_first()[i] is Text by {
            assert(body.drop_first()[i] == body[i + 1]);
        }
        lemma_expand_text_body(t, stack, body.drop_first());
        assert(expand_token(t, stack, body[0]) == Ok::<Seq<TokenView>, ErrorView>(seq![body[0]]));
        assert(seq![body[0]] + body.drop_first() =~= body);
        assert(expand_body(t, stack, body) == prepend(
            seq![body[0]],
            expand_body(t, stack, body.drop_first()),
        ));
    } else {
        assert(body =~= Seq::<TokenView>::empty());
    }
}

/// A program whose `out` is defined by text literals alone outputs those
/// literals concatenated in the order they are written.
pub proof fn lemma_literal_output(src: Seq<char>)
    requires
        program_table(src) is Ok,
        program_table(src)->Ok_0.contains_key(out_name()),
        all_text(program_table(src)->Ok_0[out_name()]),
    ensures
        program_output(src) == Ok::<Seq<char>, ErrorView>(
            joined(program_table(src)->Ok_0[out_name()]),
        ),
{
    let m = program_table(src)->Ok_0;
    lemma_table_finite(src);
    lemma_stack_shorter(m, Seq::empty(), out_name());
    lemma_expand_text_body(m, seq![out_name()], m[out_name()]);
    assert(Seq::<Seq<char>>::empty().push(out_name()) =~= seq![out_name()]);
}

/// A later statement `name = body` overrides whatever `name` was bound to
/// before: the table afterwards maps `name` to `body`.
pub proof fn lemma_redefinition(
    before: Seq<TokenView>,
    name: Seq<char>,
    body: Seq<TokenView>,
)
    requires
        before.len() == 0 || before.last() is NewLine,
        statements(before) is Ok,
        forall|i: int| 0 <= i < body.len() ==> !(#[trigger] body[i] is NewLine),
    ensures
        statements(
            before + seq![TokenView::Ident(name), TokenView::Assign] + body + seq![TokenView::NewLine],
        ) == Ok::<Map<Seq<char>, Seq<TokenView>>, ErrorView>(
            statements(before)->Ok_0.insert(name, body),
        ),
{
    let m = statements(before)->Ok_0;
    let stmt = seq![TokenView::Ident(name), TokenView::Assign] + body + seq![TokenView::NewLine];
    assert(before + seq![TokenView::Ident(name), TokenView::Assign] + body + seq![TokenView::NewLine]
        =~= before + stmt);
    lemma_build_append(before, stmt, Map::empty());
    let s2 = stmt.skip(2);
    assert(s2 =~= body + seq![TokenView::NewLine]);
    assert forall|j: int| 0 <= j < body.len() implies #[trigger] within_line()(s2[j]) by {
        assert(s2[j] == body[j]);
    }
    lemma_run_exact(s2, within_line(), body.len() as int);
    assert(stmt.subrange(2, 2 + body.len() as int) =~= body);
    assert(stmt.skip(3 + body.len() as int) =~= Seq::<TokenView>::empty());
    assert(stmt[0] == TokenView::Ident(name));
    assert(stmt[1] == TokenView::Assign);
    assert(build(stmt, m) == build(Seq::<TokenView>::empty(), m.insert(name, body)));
}

/// A program where `out` refers to a name `a` defined as `a` itself fails
/// with a cyclic-definition error for `a`.
pub proof fn lemma_self_reference(src: Seq<char>, a: Seq<char>)
    requires
        program_table(src) is Ok,
        program_table(src)->Ok_0.contains_key(out_name()),
        program_table(src)->Ok_0.contains_key(a),
        program_table(src)->Ok_0[out_name()] == seq![TokenView::Ident(a)],
        program_table(src)->Ok_0[a] == seq![TokenView::Ident(a)],
    ensures
        program_output(src) == Err::<Seq<char>, ErrorView>(ErrorView::CyclicDefinition(a)),
{
    let m = program_table(src)->Ok_0;
    let o = out_name();
    lemma_table_finite(src);
    lemma_stack_shorter(m, Seq::empty(), o);
    let s1 = Seq::<Seq<char>>::empty().push(o);
    assert(s1 =~= seq![o]);
    let body = seq![TokenView::Ident(a)];
    assert(body.drop_first() =~= Seq::<TokenView>::empty());
    if a != o {
        assert(s1.no_duplicates());
        assert(!s1.contains(a));
        lemma_stack_shorter(m, s1, a);
        let s2 = s1.push(a);
        assert(s2[1] == a);
        assert(s2.contains(a));
        assert(expand_token(m, s2, TokenView::Ident(a)) == Err::<Seq<TokenView>, ErrorView>(
            ErrorView::CyclicDefinition(a),
        ));
        assert(expand_body(m, s2, body) == Err::<Seq<TokenView>, ErrorView>(
            ErrorView::CyclicDefinition(a),
        ));
    } else {
        assert(s1[0] == a);
        assert(s1.contains(a));
    }
    assert(expand_token(m, s1, TokenView::Ident(a)) == Err::<Seq<TokenView>, ErrorView>(
        ErrorView::CyclicDefinition(a),
    ));
    assert(expand_name(m, o) == Err::<Seq<TokenView>, ErrorView>(ErrorView::CyclicDefinition(a)));
}

/// Adding or removing a blank or comment-only line between complete lines
/// changes neither the symbol table nor the output.
pub proof fn lemma_filler_line_ignored(a: Seq<char>, l: Seq<char>, b: Seq<char>)
    requires
        a.len() == 0 || a.last() == '\n',
        lex(a) is Ok,
        is_filler_line(l),
    ensures
        program_table(a + l + b) == program_table(a + b),
        program_output(a + l + b) == program_output(a + b),
{
    let ta = lex(a)->Ok_0;
    let nl = seq![TokenView::NewLine];
    assert(a + l + b =~= a + (l + b));
    lemma_lex_append(a, l + b);
    lemma_lex_append(a, b);
    lemma_lex_filler(l, b);
    lemma_prepend_prepend(ta, nl, lex(b));
    if lex(b) is Ok {
        let tb = lex(b)->Ok_0;
        assert((ta + nl) + tb =~= ta + (nl + tb));
        lemma_build_append(ta, nl + tb, Map::empty());
        lemma_build_append(ta, tb, Map::empty());
        assert((nl + tb).drop_first() =~= tb);
    }
}

} // verus!
