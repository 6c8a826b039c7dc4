use vstd::prelude::*;

verus! {

/// Length of the longest prefix of `s` whose items all satisfy `p`.
pub open spec fn run_while<A>(s: Seq<A>, p: spec_fn(A) -> bool) -> nat
    decreases s.len(),
{
    if s.len() > 0 && p(s[0]) {
        1 + run_while(s.drop_first(), p)
    } else {
        0
    }
}

/// The run stops at the first item that fails `p`, or at the end.
pub proof fn lemma_run_bounds<A>(s: Seq<A>, p: spec_fn(A) -> bool)
    ensures
        run_while(s, p) <= s.len(),
        forall|j: int| 0 <= j < run_while(s, p) ==> p(#[trigger] s[j]),
        run_while(s, p) < s.len() ==> !p(s[run_while(s, p) as int]),
        s.len() > 0 && p(s[0]) ==> run_while(s, p) >= 1,
    decreases s.len(),
{
    if s.len() > 0 && p(s[0]) {
        lemma_run_bounds(s.drop_first(), p);
        assert forall|j: int| 0 <= j < run_while(s, p) implies p(#[trigger] s[j]) by {
            if j > 0 {
                assert(s[j] == s.drop_first()[j - 1]);
            }
        }
    }
}

/// A prefix of items satisfying `p`, ended by the end or by an item failing `p`,
/// is the run.
pub proof fn lemma_run_exact<A>(s: Seq<A>, p: spec_fn(A) -> bool, k: int)
    requires
        0 <= k <= s.len(),
        forall|j: int| 0 <= j < k ==> p(#[trigger] s[j]),
        k == s.len() || !p(s[k]),
    ensures
        run_while(s, p) == k,
    decreases k,
{
    if k > 0 {
        assert forall|j: int| 0 <= j < k - 1 implies p(#[trigger] s.drop_first()[j]) by {
            assert(s.drop_first()[j] == s[j + 1]);
        }
        if k < s.len() {
            assert(s.drop_first()[k - 1] == s[k]);
        }
        lemma_run_exact(s.drop_first(), p, k - 1);
    }
}

/// A run that ends inside `s` is not changed by what follows `s`.
pub proof fn lemma_run_append<A>(s: Seq<A>, r: Seq<A>, p: spec_fn(A) -> bool)
    requires
        run_while(s, p) < s.len(),
    ensures
        run_while(s + r, p) == run_while(s, p),
{
    let k = run_while(s, p) as int;
    lemma_run_bounds(s, p);
    assert forall|j: int| 0 <= j < k implies p(#[trigger] (s + r)[j]) by {
        assert((s + r)[j] == s[j]);
    }
    assert((s + r)[k] == s[k]);
    lemma_run_exact(s + r, p, k);
}

/// Relies on `String::push`: appends one character at the end.
#[verifier::external_body]
pub(crate) fn push_char(s: &mut String, c: char)
    ensures
        final(s)@ == old(s)@.push(c),
{
    s.push(c)
}

/// The characters of `s`, in order.
pub fn chars_of(s: &str) -> (r: Vec<char>)
    ensures
        r@ == s@,
{
    let mut r: Vec<char> = Vec::new();
    for c in it: s.chars()
        invariant
            it.seq() == s@,
            r@ == s@.take(it.index() as int),
    {
        r.push(c);
        assert(r@ =~= s@.take(it.index() as int + 1));
    }
    assert(r@ =~= s@);
    r
}

/// The string made of `chars[from..to]`.
pub fn string_of(chars: &Vec<char>, from: usize, to: usize) -> (r: String)
    requires
        from <= to <= chars@.len(),
    ensures
        r@ == chars@.subrange(from as int, to as int),
{
    let mut r = String::new();
    let mut i: usize = from;
    while i < to
        invariant
            from <= i <= to <= chars@.len(),
            r@ == chars@.subrange(from as int, i as int),
        decreases to - i,
    {
        push_char(&mut r, chars[i]);
        assert(r@ =~= chars@.subrange(from as int, i + 1));
        i += 1;
    }
    r
}

} // verus!
