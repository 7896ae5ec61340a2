use vstd::prelude::*;
use crate::order::{lemma_lex_irreflexive, lex_lt};
use crate::rewrite::{best_len, is_rewriting, replaceable, shortest_len};
use crate::table::CompositionTable;

verus! {

/// In a table, decompositions strictly ascend, so no two entries share one.
pub proof fn lemma_table_sorted_unique(t: CompositionTable)
    requires
        t.wf(),
    ensures
        forall|i: int, j: int|
            0 <= i < j < t.entries@.len() ==> lex_lt(
                #[trigger] t.entries@[i].long@,
                #[trigger] t.entries@[j].long@,
            ) && t.entries@[i].long@ != t.entries@[j].long@,
{
    assert forall|i: int, j: int| 0 <= i < j < t.entries@.len() implies lex_lt(
        #[trigger] t.entries@[i].long@,
        #[trigger] t.entries@[j].long@,
    ) && t.entries@[i].long@ != t.entries@[j].long@ by {
        lemma_lex_irreflexive(t.entries@[i].long@);
    }
}

/// A rewriting is never longer than the text.
pub proof fn lemma_rewriting_not_longer(
    t: Map<Seq<char>, char>,
    fold_case: bool,
    s: Seq<char>,
    r: Seq<char>,
)
    requires
        is_rewriting(t, fold_case, s, r),
    ensures
        r.len() <= s.len(),
    decreases s.len(),
{
    if s.len() > 0 {
        if r[0] == s[0] && is_rewriting(t, fold_case, s.drop_first(), r.drop_first()) {
            lemma_rewriting_not_longer(t, fold_case, s.drop_first(), r.drop_first());
        } else {
            let k = choose|k: int|
                1 <= k <= s.len() && #[trigger] replaceable(t, fold_case, s.take(k)) && t[crate::rewrite::fold(
                    fold_case,
                    s.take(k),
                )] == r[0] && is_rewriting(t, fold_case, s.skip(k), r.drop_first());
            lemma_rewriting_not_longer(t, fold_case, s.skip(k), r.drop_first());
        }
    }
}

/// The empty text rewrites only to itself.
pub proof fn lemma_empty_unchanged(t: Map<Seq<char>, char>, fold_case: bool, r: Seq<char>)
    requires
        is_rewriting(t, fold_case, Seq::empty(), r),
    ensures
        r == Seq::<char>::empty(),
{
    assert(r =~= Seq::<char>::empty());
}

/// Where no run of the text is in the table, its only rewriting is the text itself.
pub proof fn lemma_irreducible_unchanged(
    t: Map<Seq<char>, char>,
    fold_case: bool,
    s: Seq<char>,
    r: Seq<char>,
)
    requires
        is_rewriting(t, fold_case, s, r),
        forall|i: int, j: int|
            0 <= i < j <= s.len() ==> !#[trigger] replaceable(t, fold_case, s.subrange(i, j)),
    ensures
        r == s,
    decreases s.len(),
{
    if s.len() == 0 {
        assert(r =~= s);
    } else {
        if exists|k: int|
            1 <= k <= s.len() && #[trigger] replaceable(t, fold_case, s.take(k)) && t[crate::rewrite::fold(
                fold_case,
                s.take(k),
            )] == r[0] && is_rewriting(t, fold_case, s.skip(k), r.drop_first()) {
            let k = choose|k: int|
                1 <= k <= s.len() && #[trigger] replaceable(t, fold_case, s.take(k)) && t[crate::rewrite::fold(
                    fold_case,
                    s.take(k),
                )] == r[0] && is_rewriting(t, fold_case, s.skip(k), r.drop_first());
            assert(s.subrange(0, k) =~= s.take(k));
            assert(false);
        }
        let s1 = s.drop_first();
        assert forall|i: int, j: int| 0 <= i < j <= s1.len() implies !#[trigger] replaceable(
            t,
            fold_case,
            s1.subrange(i, j),
        ) by {
            assert(s1.subrange(i, j) =~= s.subrange(i + 1, j + 1));
        }
        assert(r.len() > 0 && r[0] == s[0]);
        lemma_irreducible_unchanged(t, fold_case, s1, r.drop_first());
        assert(r.drop_first() == s1);
        assert(r.len() == s.len());
        assert forall|i: int| 0 <= i < r.len() implies r[i] == s[i] by {
            if i > 0 {
                assert(r[i] == r.drop_first()[i - 1]);
                assert(s[i] == s1[i - 1]);
            }
        }
        assert(r =~= s);
    }
}

proof fn lemma_best_positive(t: Map<Seq<char>, char>, fold_case: bool, s: Seq<char>, j: int)
    requires
        s.len() > 0,
    ensures
        best_len(t, fold_case, s, j) >= 1,
    decreases j,
{
    if 1 < j <= s.len() {
        lemma_best_positive(t, fold_case, s, j - 1);
    } else if j > s.len() {
        lemma_best_positive(t, fold_case, s, s.len() as int);
    }
}

/// A text that is, as looked up, one key of the table shortens to one character.
pub proof fn lemma_whole_key_one_char(t: Map<Seq<char>, char>, fold_case: bool, s: Seq<char>)
    requires
        s.len() > 0,
        replaceable(t, fold_case, s),
    ensures
        shortest_len(t, fold_case, s) == 1,
{
    assert(s.take(s.len() as int) =~= s);
    lemma_best_positive(t, fold_case, s, s.len() as int);
    if s.len() > 1 {
        lemma_best_positive(t, fold_case, s, s.len() - 1);
        assert(s.skip(s.len() as int).len() == 0);
        assert(best_len(t, fold_case, s.skip(s.len() as int), 0) == 0);
    } else {
        assert(s.drop_first().len() == 0);
        assert(best_len(t, fold_case, s.drop_first(), 0) == 0);
    }
}

} // verus!
