use vstd::prelude::*;
use superslice::Ext;
use crate::order::{
    is_prefix, lemma_lex_asymmetric, lemma_lex_irreflexive, lemma_prefix_lt,
    lemma_trunc_eq_prefix, lemma_trunc_monotone, lex_le, lex_lt, trunc,
};
use crate::rewrite::{
    best_len, char_lower_of, fold, is_rewriting, lemma_best_monotone, lemma_best_stable,
    lemma_fold_take_prefix, lemma_fold_take_step, lemma_literal_prefix, lemma_shortest_skip,
    replaceable, shortest_len,
};
use crate::table::{
    has_key, key_index, lemma_entries_map_at, same_chars, strictly_sorted, Composition,
    CompositionTable,
};

verus! {

/// Relies on `char::to_lowercase`: the lowercase mapping of one character.
#[verifier::external_body]
fn lowercase_char(c: char) -> (r: Vec<char>)
    ensures
        r@ == char_lower_of(c),
{
    c.to_lowercase().collect()
}

/// Shortest rewritings already found, by the offset of the suffix they rewrite.
#[verifier::external_body]
pub struct MemoCache {
    map: hashbrown::HashMap<usize, Vec<char>>,
}

/// What a memo cache holds.
pub uninterp spec fn memo_contents(m: MemoCache) -> Map<usize, Seq<char>>;

impl MemoCache {
    /// Relies on hashbrown's `HashMap::new`: a map with no entry.
    #[verifier::external_body]
    pub(crate) fn new() -> (r: MemoCache)
        ensures
            memo_contents(r).dom().len() == 0,
            memo_contents(r).dom().finite(),
    {
        MemoCache { map: hashbrown::HashMap::new() }
    }

    /// Relies on hashbrown's `HashMap::get`: the value stored under `k`, if any.
    #[verifier::external_body]
    pub(crate) fn get(&self, k: usize) -> (r: Option<Vec<char>>)
        ensures
            r.is_some() == memo_contents(*self).contains_key(k),
            r.is_some() ==> r.unwrap()@ == memo_contents(*self)[k],
    {
        self.map.get(&k).cloned()
    }

    /// Relies on hashbrown's `HashMap::insert`: `k` now maps to `v`, the rest is kept.
    #[verifier::external_body]
    pub(crate) fn insert(&mut self, k: usize, v: Vec<char>)
        ensures
            memo_contents(*final(self)) == memo_contents(*old(self)).insert(k, v@),
    {
        self.map.insert(k, v);
    }
}

/// Keys cut to `n` characters ascend along the slice.
pub open spec fn heads_ascending(e: Seq<Composition>, n: nat) -> bool {
    forall|i: int, j: int|
        0 <= i < j < e.len() ==> lex_le(
            trunc(#[trigger] e[i].long@, n),
            trunc(#[trigger] e[j].long@, n),
        )
}

/// Relies on superslice's `equal_range_by_key`: on a slice ordered by key, the
/// range of elements whose key equals `q`, with smaller keys before it and
/// greater ones after it. The key of an entry is its decomposition cut to the
/// length of `q`.
#[verifier::external_body]
fn equal_range_of_heads(entries: &[Composition], q: &[char]) -> (r: std::ops::Range<usize>)
    requires
        heads_ascending(entries@, q@.len()),
    ensures
        r.start <= r.end <= entries@.len(),
        forall|i: int|
            0 <= i < r.start ==> lex_lt(trunc(#[trigger] entries@[i].long@, q@.len()), q@),
        forall|i: int|
            r.start <= i < r.end ==> trunc(#[trigger] entries@[i].long@, q@.len()) == q@,
        forall|i: int|
            r.end <= i < entries@.len() ==> lex_lt(q@, trunc(#[trigger] entries@[i].long@, q@.len())),
{
    let n = q.len();
    entries.equal_range_by_key(&q, |e| e.head(n))
}

/// The range of `compdb` whose decompositions begin with `s`.
pub fn find_range_starting(s: &[char], compdb: &[Composition]) -> (r: std::ops::Range<usize>)
    requires
        strictly_sorted(compdb@),
    ensures
        r.start <= r.end <= compdb@.len(),
        forall|i: int|
            0 <= i < compdb@.len() ==> ((r.start <= i < r.end) <==> is_prefix(
                s@,
                #[trigger] compdb@[i].long@,
            )),
{
    proof {
        assert forall|i: int, j: int| 0 <= i < j < compdb@.len() implies lex_le(
            trunc(#[trigger] compdb@[i].long@, s@.len()),
            trunc(#[trigger] compdb@[j].long@, s@.len()),
        ) by {
            lemma_trunc_monotone(compdb@[i].long@, compdb@[j].long@, s@.len());
        }
    }
    let r = equal_range_of_heads(compdb, s);
    proof {
        assert forall|i: int| 0 <= i < compdb@.len() implies ((r.start <= i < r.end) <==> is_prefix(
            s@,
            #[trigger] compdb@[i].long@,
        )) by {
            lemma_trunc_eq_prefix(compdb@[i].long@, s@);
            lemma_lex_irreflexive(s@);
        }
    }
    r
}

fn append_chars(v: &mut Vec<char>, a: &[char])
    ensures
        final(v)@ == old(v)@ + a@,
{
    let mut i: usize = 0;
    while i < a.len()
        invariant
            i <= a@.len(),
            v@ == old(v)@ + a@.take(i as int),
        decreases a@.len() - i,
    {
        v.push(a[i]);
        i = i + 1;
        proof {
            assert(a@.take(i as int) =~= a@.take(i - 1).push(a@[i - 1]));
        }
    }
    proof {
        assert(a@.take(a@.len() as int) =~= a@);
    }
}

/// The memo holds, for each offset from `from` to the end, a shortest rewriting
/// of the suffix there.
pub open spec fn memo_ok(
    t: Map<Seq<char>, char>,
    fold_case: bool,
    s: Seq<char>,
    m: Map<usize, Seq<char>>,
    from: int,
) -> bool {
    forall|k: usize|
        from <= k <= s.len() ==> #[trigger] m.contains_key(k) && is_rewriting(
            t,
            fold_case,
            s.skip(k as int),
            m[k],
        ) && m[k].len() == shortest_len(t, fold_case, s.skip(k as int))
}

/// A shortest rewriting of the suffix of `s` at `i`, given those of the
/// suffixes after it: each head length is tried, narrowing the table's range
/// to the entries that begin with the head, until none does.
fn shorten_at(tbl: &CompositionTable, s: &[char], i: usize, memo: &MemoCache) -> (r: Vec<char>)
    requires
        tbl.wf(),
        i < s@.len(),
        memo_ok(tbl@, tbl.fold_case, s@, memo_contents(*memo), i + 1),
    ensures
        is_rewriting(tbl@, tbl.fold_case, s@.skip(i as int), r@),
        r@.len() == shortest_len(tbl@, tbl.fold_case, s@.skip(i as int)),
{
    let ghost t = tbl@;
    let ghost fc = tbl.fold_case;
    let ghost ss = s@.skip(i as int);
    let ghost e = tbl.entries@;
    let n = s.len();
    let entries = tbl.entries.as_slice();
    let mut folded: Vec<char> = Vec::new();
    let mut lo: usize = 0;
    let mut hi: usize = entries.len();
    let mut best: Vec<char> = Vec::new();
    let mut p: usize = 1;
    proof {
        assert(ss.take(0) =~= Seq::<char>::empty());
        assert forall|k: int| 0 <= k < e.len() implies ((lo <= k < hi) <==> is_prefix(
            folded@,
            #[trigger] e[k].long@,
        )) by {
            assert(e[k].long@.take(0) =~= folded@);
        }
    }
    loop
        invariant_except_break
            tbl.wf(),
            t == tbl@,
            fc == tbl.fold_case,
            e == tbl.entries@,
            entries@ == e,
            n == s@.len(),
            ss == s@.skip(i as int),
            i < n,
            1 <= p <= n - i,
            memo_ok(t, fc, s@, memo_contents(*memo), i + 1),
            folded@ == fold(fc, ss.take(p - 1)),
            lo <= hi <= e.len(),
            forall|k: int|
                0 <= k < e.len() ==> ((lo <= k < hi) <==> is_prefix(
                    folded@,
                    #[trigger] e[k].long@,
                )),
            p > 1 ==> is_rewriting(t, fc, ss, best@),
            p > 1 ==> best@.len() == best_len(t, fc, ss, p - 1),
        ensures
            is_rewriting(t, fc, ss, best@),
            best@.len() == shortest_len(t, fc, ss),
        decreases n - i - p,
    {
        let c = s[i + p - 1];
        proof {
            lemma_fold_take_step(fc, ss, p - 1);
        }
        if tbl.fold_case {
            let lc = lowercase_char(c);
            append_chars(&mut folded, lc.as_slice());
        } else {
            folded.push(c);
        }
        let ghost prev_lo = lo;
        let ghost prev_hi = hi;
        let ghost prev_folded = fold(fc, ss.take(p - 1));
        assert(folded@ == fold(fc, ss.take(p as int)));
        proof {
            assert(folded@.take(prev_folded.len() as int) =~= prev_folded);
            assert forall|i1: int, j1: int| 0 <= i1 < j1 < e.subrange(lo as int, hi as int).len()
                implies lex_lt(
                #[trigger] e.subrange(lo as int, hi as int)[i1].long@,
                #[trigger] e.subrange(lo as int, hi as int)[j1].long@,
            ) by {
                assert(e.subrange(lo as int, hi as int)[i1] == e[lo + i1]);
                assert(e.subrange(lo as int, hi as int)[j1] == e[lo + j1]);
            }
        }
        let sub = vstd::slice::slice_subrange(entries, lo, hi);
        let range = find_range_starting(folded.as_slice(), sub);
        let base = lo;
        lo = base + range.start;
        hi = base + range.end;
        proof {
            assert forall|k: int| 0 <= k < e.len() implies ((lo <= k < hi) <==> is_prefix(
                folded@,
                #[trigger] e[k].long@,
            )) by {
                if is_prefix(folded@, e[k].long@) {
                    assert(e[k].long@.take(prev_folded.len() as int) =~= prev_folded);
                    assert(sub@[k - prev_lo] == e[k]);
                }
                if prev_lo <= k < prev_hi {
                    assert(sub@[k - prev_lo] == e[k]);
                }
            }
        }
        let tail = match memo.get(i + p) {
            Some(v) => v,
            None => {
                proof {
                    assert(memo_contents(*memo).contains_key((i + p) as usize));
                }
                Vec::new()
            },
        };
        let ghost rest = ss.skip(p as int);
        proof {
            assert(rest =~= s@.skip(i + p));
        }
        let mut candidate: Vec<char> = Vec::new();
        let matched = lo < hi && same_chars(entries[lo].long.as_slice(), folded.as_slice());
        if matched {
            candidate.push(entries[lo].short);
        } else {
            append_chars(&mut candidate, vstd::slice::slice_subrange(s, i, i + p));
        }
        append_chars(&mut candidate, tail.as_slice());
        proof {
            let key = fold(fc, ss.take(p as int));
            assert(s@.subrange(i as int, i + p) =~= ss.take(p as int));
            if matched {
                lemma_entries_map_at(e, lo as int);
                assert(replaceable(t, fc, ss.take(p as int)));
                assert(candidate@.drop_first() =~= tail@);
                assert(is_rewriting(t, fc, ss, candidate@));
            } else {
                lemma_literal_prefix(t, fc, ss, tail@, p as int);
                if replaceable(t, fc, ss.take(p as int)) {
                    let k = key_index(e, key);
                    assert(has_key(e, key));
                    assert(e[k].long@.take(key.len() as int) =~= key);
                    if k != lo {
                        assert(lo < hi);
                        assert(e[lo as int].long@ != key);
                        assert(is_prefix(key, e[lo as int].long@));
                        if e[lo as int].long@.len() == key.len() {
                            assert(e[lo as int].long@.take(key.len() as int) =~= e[lo as int].long@);
                        }
                        lemma_prefix_lt(key, e[lo as int].long@);
                        lemma_lex_asymmetric(key, e[lo as int].long@);
                    }
                }
                if p > 1 {
                    lemma_best_monotone(t, fc, ss, 1, p - 1);
                    lemma_shortest_skip(t, fc, ss.drop_first(), p - 1);
                    assert(ss.drop_first().skip(p - 1) =~= rest);
                }
            }
            if p == 1 {
                assert(ss.drop_first() =~= rest);
            }
        }
        if p == 1 || candidate.len() < best.len() {
            best = candidate;
        }
        if lo == hi || i + p == n {
            proof {
                if lo == hi {
                    assert forall|k: int| p < k <= ss.len() implies !#[trigger] replaceable(
                        t,
                        fc,
                        ss.take(k),
                    ) by {
                        if replaceable(t, fc, ss.take(k)) {
                            let kk = fold(fc, ss.take(k));
                            lemma_fold_take_prefix(fc, ss, p as int, k);
                            let x = key_index(e, kk);
                            assert(has_key(e, kk));
                            assert(e[x].long@.take(folded@.len() as int) =~= kk.take(
                                folded@.len() as int,
                            ));
                        }
                    }
                    lemma_best_stable(t, fc, ss, p as int, ss.len() as int);
                }
            }
            break;
        }
        p = p + 1;
    }
    best
}

/// A shortest rewriting of `s` with the table `tbl`: every suffix is shortened
/// once, from the last to the first, each from those after it.
pub fn shorten(s: &[char], tbl: &CompositionTable) -> (r: Vec<char>)
    requires
        tbl.wf(),
    ensures
        is_rewriting(tbl@, tbl.fold_case, s@, r@),
        r@.len() == shortest_len(tbl@, tbl.fold_case, s@),
        r@.len() <= s@.len(),
{
    let n = s.len();
    let mut memo = MemoCache::new();
    memo.insert(n, Vec::new());
    proof {
        let m = memo_contents(memo);
        assert forall|k: usize| n <= k <= s@.len() implies #[trigger] m.contains_key(k)
            && is_rewriting(tbl@, tbl.fold_case, s@.skip(k as int), m[k]) && m[k].len()
            == shortest_len(tbl@, tbl.fold_case, s@.skip(k as int)) by {
            assert(s@.skip(k as int).len() == 0);
            assert(m[k].len() == 0);
        }
    }
    let mut i: usize = n;
    while i > 0
        invariant
            i <= n,
            n == s@.len(),
            tbl.wf(),
            memo_ok(tbl@, tbl.fold_case, s@, memo_contents(memo), i as int),
        decreases i,
    {
        i = i - 1;
        let r = shorten_at(tbl, s, i, &memo);
        memo.insert(i, r);
        proof {
            let m = memo_contents(memo);
            assert forall|k: usize| i <= k <= s@.len() implies #[trigger] m.contains_key(k)
                && is_rewriting(tbl@, tbl.fold_case, s@.skip(k as int), m[k]) && m[k].len()
                == shortest_len(tbl@, tbl.fold_case, s@.skip(k as int)) by {
                if k > i {
                    assert(m[k] == memo_contents(memo)[k]);
                }
            }
        }
    }
    proof {
        assert(s@.skip(0) =~= s@);
        assert(memo_contents(memo).contains_key(0usize));
        lemma_shortest_skip(tbl@, tbl.fold_case, s@, s@.len() as int);
        assert(s@.skip(s@.len() as int).len() == 0);
    }
    match memo.get(0) {
        Some(v) => v,
        None => Vec::new(),
    }
}

/// Relies on `str::chars`: the characters of `s` in order.
#[verifier::external_body]
fn chars_of(s: &str) -> (r: Vec<char>)
    ensures
        r@ == s@,
{
    s.chars().collect()
}

/// Relies on `String`'s `FromIterator<char>`: the string of the characters in order.
#[verifier::external_body]
fn string_of(v: &[char]) -> (r: String)
    ensures
        r@ == v@,
{
    v.iter().collect()
}

/// The text `s` shortened with the table `compdb`.
pub fn shorten_str_with_db(s: &str, compdb: &CompositionTable) -> (r: String)
    requires
        compdb.wf(),
    ensures
        is_rewriting(compdb@, compdb.fold_case, s@, r@),
        r@.len() == shortest_len(compdb@, compdb.fold_case, s@),
        r@.len() <= s@.len(),
{
    let chars = chars_of(s);
    let short = shorten(chars.as_slice(), compdb);
    string_of(short.as_slice())
}

} // verus!
