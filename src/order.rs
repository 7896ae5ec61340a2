use vstd::prelude::*;

verus! {

/// Lexicographic order on character sequences, comparing characters by code
/// point: the order of `[char]` in Rust.
pub open spec fn lex_lt(a: Seq<char>, b: Seq<char>) -> bool
    decreases a.len(),
{
    if a.len() == 0 {
        b.len() > 0
    } else if b.len() == 0 {
        false
    } else if a[0] != b[0] {
        a[0] < b[0]
    } else {
        lex_lt(a.drop_first(), b.drop_first())
    }
}

pub open spec fn lex_le(a: Seq<char>, b: Seq<char>) -> bool {
    a == b || lex_lt(a, b)
}

/// The first `n` characters of `a`, or all of `a` when it is shorter.
pub open spec fn trunc(a: Seq<char>, n: nat) -> Seq<char> {
    if a.len() >= n {
        a.take(n as int)
    } else {
        a
    }
}

pub open spec fn is_prefix(p: Seq<char>, a: Seq<char>) -> bool {
    p.len() <= a.len() && a.take(p.len() as int) == p
}

pub proof fn lemma_lex_irreflexive(a: Seq<char>)
    ensures
        !lex_lt(a, a),
    decreases a.len(),
{
    if a.len() > 0 {
        lemma_lex_irreflexive(a.drop_first());
    }
}

pub proof fn lemma_lex_transitive(a: Seq<char>, b: Seq<char>, c: Seq<char>)
    requires
        lex_lt(a, b),
        lex_lt(b, c),
    ensures
        lex_lt(a, c),
    decreases a.len(),
{
    if a.len() > 0 && b.len() > 0 && c.len() > 0 && a[0] == b[0] && b[0] == c[0] {
        lemma_lex_transitive(a.drop_first(), b.drop_first(), c.drop_first());
    }
}

pub proof fn lemma_lex_total(a: Seq<char>, b: Seq<char>)
    requires
        a != b,
    ensures
        lex_lt(a, b) || lex_lt(b, a),
    decreases a.len(),
{
    if a.len() == 0 && b.len() == 0 {
        assert(a =~= b);
    }
    if a.len() > 0 && b.len() > 0 {
        if a[0] == b[0] {
            if a.drop_first() == b.drop_first() {
                assert(a =~= seq![a[0]] + a.drop_first());
                assert(b =~= seq![b[0]] + b.drop_first());
            }
            lemma_lex_total(a.drop_first(), b.drop_first());
        } else {
            assert(a[0] < b[0] || b[0] < a[0]);
        }
    }
}

pub proof fn lemma_lex_asymmetric(a: Seq<char>, b: Seq<char>)
    requires
        lex_lt(a, b),
    ensures
        !lex_lt(b, a),
{
    if lex_lt(b, a) {
        lemma_lex_transitive(a, b, a);
        lemma_lex_irreflexive(a);
    }
}

/// A proper prefix comes first.
pub proof fn lemma_prefix_lt(p: Seq<char>, a: Seq<char>)
    requires
        is_prefix(p, a),
        p.len() < a.len(),
    ensures
        lex_lt(p, a),
    decreases p.len(),
{
    if p.len() > 0 {
        assert(a[0] == p[0]);
        assert(a.drop_first().take(p.len() - 1) =~= p.drop_first());
        lemma_prefix_lt(p.drop_first(), a.drop_first());
    }
}

/// Cutting both sides to the same length keeps their order (or makes them equal).
pub proof fn lemma_trunc_monotone(a: Seq<char>, b: Seq<char>, n: nat)
    requires
        lex_le(a, b),
    ensures
        lex_le(trunc(a, n), trunc(b, n)),
    decreases a.len(),
{
    if a != b && n > 0 && a.len() > 0 && b.len() > 0 {
        let a1 = a.drop_first();
        let b1 = b.drop_first();
        if a[0] == b[0] {
            lemma_trunc_monotone(a1, b1, (n - 1) as nat);
            assert(trunc(a, n) =~= seq![a[0]] + trunc(a1, (n - 1) as nat));
            assert(trunc(b, n) =~= seq![b[0]] + trunc(b1, (n - 1) as nat));
            assert(trunc(a, n).drop_first() =~= trunc(a1, (n - 1) as nat));
            assert(trunc(b, n).drop_first() =~= trunc(b1, (n - 1) as nat));
        } else {
            assert(trunc(a, n)[0] == a[0]);
            assert(trunc(b, n)[0] == b[0]);
        }
    } else if n == 0 {
        assert(trunc(a, n) =~= trunc(b, n));
    } else if a.len() == 0 && b.len() == 0 {
        assert(trunc(a, n) =~= trunc(b, n));
    }
}

/// A sequence cut to the length of `q` equals `q` exactly when `q` is a prefix of it.
pub proof fn lemma_trunc_eq_prefix(a: Seq<char>, q: Seq<char>)
    ensures
        (trunc(a, q.len()) == q) <==> is_prefix(q, a),
{
    if trunc(a, q.len()) == q && a.len() < q.len() {
        assert(false);
    }
}

} // verus!
