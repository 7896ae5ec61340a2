use vstd::prelude::*;
use crate::order::is_prefix;

verus! {

/// What `char::to_lowercase` yields for one character.
pub uninterp spec fn char_lower_of(c: char) -> Seq<char>;

/// Each character replaced by its lowercase mapping.
pub open spec fn lower_all(s: Seq<char>) -> Seq<char>
    decreases s.len(),
{
    if s.len() == 0 {
        Seq::empty()
    } else {
        lower_all(s.drop_last()) + char_lower_of(s.last())
    }
}

/// The form in which a run of input is looked up in a table.
pub open spec fn fold(fold_case: bool, s: Seq<char>) -> Seq<char> {
    if fold_case {
        lower_all(s)
    } else {
        s
    }
}

/// The run `s` may be written as one composed character of the table.
pub open spec fn replaceable(t: Map<Seq<char>, char>, fold_case: bool, s: Seq<char>) -> bool {
    t.contains_key(fold(fold_case, s))
}

/// `r` is `s` with zero or more non-overlapping runs replaced, each by the composed
/// character that the table gives for it.
pub open spec fn is_rewriting(
    t: Map<Seq<char>, char>,
    fold_case: bool,
    s: Seq<char>,
    r: Seq<char>,
) -> bool
    decreases s.len(),
{
    if s.len() == 0 {
        r.len() == 0
    } else if r.len() == 0 {
        false
    } else {
        (r[0] == s[0] && is_rewriting(t, fold_case, s.drop_first(), r.drop_first())) || exists|
            k: int,
        |
            1 <= k <= s.len() && #[trigger] replaceable(t, fold_case, s.take(k)) && t[fold(
                fold_case,
                s.take(k),
            )] == r[0] && is_rewriting(t, fold_case, s.skip(k), r.drop_first())
    }
}

/// The length of the shortest rewriting of `s` whose first piece covers at most
/// `j` characters of input.
pub open spec fn best_len(t: Map<Seq<char>, char>, fold_case: bool, s: Seq<char>, j: int) -> nat
    decreases s.len(), j,
{
    if s.len() == 0 {
        0
    } else if j <= 1 {
        1 + best_len(t, fold_case, s.drop_first(), s.len() - 1)
    } else if j > s.len() {
        best_len(t, fold_case, s, s.len() as int)
    } else {
        let rest = best_len(t, fold_case, s, j - 1);
        if replaceable(t, fold_case, s.take(j)) {
            let here = 1 + best_len(t, fold_case, s.skip(j), s.len() - j);
            if here < rest {
                here
            } else {
                rest
            }
        } else {
            rest
        }
    }
}

/// The length of the shortest rewriting of `s`.
pub open spec fn shortest_len(t: Map<Seq<char>, char>, fold_case: bool, s: Seq<char>) -> nat {
    best_len(t, fold_case, s, s.len() as int)
}


/// Taking one more character of input extends the looked-up form.
pub proof fn lemma_fold_take_step(fold_case: bool, s: Seq<char>, p: int)
    requires
        0 <= p < s.len(),
    ensures
        fold(fold_case, s.take(p + 1)) == fold(fold_case, s.take(p)) + (if fold_case {
            char_lower_of(s[p])
        } else {
            seq![s[p]]
        }),
{
    assert(s.take(p + 1).drop_last() =~= s.take(p));
    assert(s.take(p + 1) =~= s.take(p).push(s[p]));
}

/// The looked-up form of a shorter run is a prefix of that of a longer one.
pub proof fn lemma_fold_take_prefix(fold_case: bool, s: Seq<char>, p: int, j: int)
    requires
        0 <= p <= j <= s.len(),
    ensures
        is_prefix(fold(fold_case, s.take(p)), fold(fold_case, s.take(j))),
    decreases j - p,
{
    if p < j {
        lemma_fold_take_prefix(fold_case, s, p, j - 1);
        lemma_fold_take_step(fold_case, s, j - 1);
        let a = fold(fold_case, s.take(p));
        let b = fold(fold_case, s.take(j - 1));
        let c = fold(fold_case, s.take(j));
        assert(c.take(a.len() as int) =~= b.take(a.len() as int));
    } else {
        assert(fold(fold_case, s.take(p)).take(fold(fold_case, s.take(p)).len() as int)
            =~= fold(fold_case, s.take(p)));
    }
}

/// Allowing a longer first piece never makes the best length longer.
pub proof fn lemma_best_monotone(
    t: Map<Seq<char>, char>,
    fold_case: bool,
    s: Seq<char>,
    i: int,
    j: int,
)
    requires
        1 <= i <= j <= s.len(),
    ensures
        best_len(t, fold_case, s, j) <= best_len(t, fold_case, s, i),
    decreases j - i,
{
    if i < j {
        lemma_best_monotone(t, fold_case, s, i, j - 1);
    }
}

/// Leaving the first `k` characters as they are costs at most `k` over the rest.
pub proof fn lemma_shortest_skip(t: Map<Seq<char>, char>, fold_case: bool, s: Seq<char>, k: int)
    requires
        0 <= k <= s.len(),
    ensures
        shortest_len(t, fold_case, s) <= k + shortest_len(t, fold_case, s.skip(k)),
    decreases k,
{
    if k == 0 {
        assert(s.skip(0) =~= s);
    } else {
        lemma_best_monotone(t, fold_case, s, 1, s.len() as int);
        lemma_shortest_skip(t, fold_case, s.drop_first(), k - 1);
        assert(s.drop_first().skip(k - 1) =~= s.skip(k));
    }
}

/// Once no run from the start up to `p` characters long can begin a key, longer
/// first pieces change nothing.
pub proof fn lemma_best_stable(
    t: Map<Seq<char>, char>,
    fold_case: bool,
    s: Seq<char>,
    p: int,
    j: int,
)
    requires
        1 <= p <= j <= s.len(),
        forall|k: int| p < k <= s.len() ==> !#[trigger] replaceable(t, fold_case, s.take(k)),
    ensures
        best_len(t, fold_case, s, j) == best_len(t, fold_case, s, p),
    decreases j - p,
{
    if p < j {
        lemma_best_stable(t, fold_case, s, p, j - 1);
    }
}

/// Characters kept as they are in front of a rewriting give a rewriting.
pub proof fn lemma_literal_prefix(
    t: Map<Seq<char>, char>,
    fold_case: bool,
    s: Seq<char>,
    r: Seq<char>,
    k: int,
)
    requires
        0 <= k <= s.len(),
        is_rewriting(t, fold_case, s.skip(k), r),
    ensures
        is_rewriting(t, fold_case, s, s.take(k) + r),
    decreases k,
{
    if k == 0 {
        assert(s.skip(0) =~= s);
        assert(s.take(0) + r =~= r);
    } else {
        let s1 = s.drop_first();
        assert(s1.skip(k - 1) =~= s.skip(k));
        lemma_literal_prefix(t, fold_case, s1, r, k - 1);
        let w = s.take(k) + r;
        assert(w.drop_first() =~= s1.take(k - 1) + r);
        assert(w[0] == s[0]);
    }
}

/// No rewriting is shorter than the length that `shortest_len` gives.
pub proof fn lemma_shortest_is_minimal(
    t: Map<Seq<char>, char>,
    fold_case: bool,
    s: Seq<char>,
    r: Seq<char>,
)
    requires
        is_rewriting(t, fold_case, s, r),
    ensures
        shortest_len(t, fold_case, s) <= r.len(),
    decreases s.len(),
{
    if s.len() > 0 {
        lemma_best_monotone(t, fold_case, s, 1, s.len() as int);
        if r[0] == s[0] && is_rewriting(t, fold_case, s.drop_first(), r.drop_first()) {
            lemma_shortest_is_minimal(t, fold_case, s.drop_first(), r.drop_first());
        } else {
            let k = choose|k: int|
                1 <= k <= s.len() && #[trigger] replaceable(t, fold_case, s.take(k)) && t[fold(
                    fold_case,
                    s.take(k),
                )] == r[0] && is_rewriting(t, fold_case, s.skip(k), r.drop_first());
            lemma_shortest_is_minimal(t, fold_case, s.skip(k), r.drop_first());
            lemma_best_monotone(t, fold_case, s, k, s.len() as int);
            if k == 1 {
                assert(s.skip(1) =~= s.drop_first());
            }
        }
    }
}

} // verus!
