use vstd::prelude::*;
use superslice::Ext;
use crate::order::{
    is_prefix, lemma_lex_irreflexive, lemma_lex_total, lemma_lex_transitive, lex_lt, trunc,
};

verus! {

/// One substitution: the composed character `short` stands for the sequence `long`.
pub struct Composition {
    pub long: Vec<char>,
    pub short: char,
}

impl Composition {
    pub fn long(&self) -> (r: &[char])
        ensures
            r@ == self.long@,
    {
        self.long.as_slice()
    }

    pub fn short(&self) -> (r: char)
        ensures
            r == self.short,
    {
        self.short
    }

    /// The first `n` characters of the decomposition, or all of it when it is shorter.
    pub fn head(&self, n: usize) -> (r: &[char])
        ensures
            r@ == trunc(self.long@, n as nat),
    {
        let s = self.long.as_slice();
        if s.len() >= n {
            vstd::slice::slice_subrange(s, 0, n)
        } else {
            proof {
                assert(s@.subrange(0, s@.len() as int) =~= s@);
            }
            vstd::slice::slice_subrange(s, 0, s.len())
        }
    }
}

/// Entries strictly ascending by decomposition: no key occurs twice.
pub open spec fn strictly_sorted(e: Seq<Composition>) -> bool {
    forall|i: int, j: int|
        0 <= i < j < e.len() ==> lex_lt(#[trigger] e[i].long@, #[trigger] e[j].long@)
}

pub open spec fn has_key(e: Seq<Composition>, k: Seq<char>) -> bool {
    exists|i: int| 0 <= i < e.len() && (#[trigger] e[i]).long@ == k
}

pub open spec fn key_index(e: Seq<Composition>, k: Seq<char>) -> int {
    choose|i: int| 0 <= i < e.len() && (#[trigger] e[i]).long@ == k
}

/// The mapping from decomposition to composed character that a list of entries holds.
pub open spec fn entries_map(e: Seq<Composition>) -> Map<Seq<char>, char> {
    Map::new(|k: Seq<char>| has_key(e, k), |k: Seq<char>| e[key_index(e, k)].short)
}

/// Adds `k -> c` unless `k` already has a value: the first value for a key stays.
pub open spec fn insert_absent(m: Map<Seq<char>, char>, k: Seq<char>, c: char) -> Map<
    Seq<char>,
    char,
> {
    if m.contains_key(k) {
        m
    } else {
        m.insert(k, c)
    }
}

/// The mapping that pairs give when they are taken in order, each decomposition
/// of at least two characters keeping the first composed character given for it.
pub open spec fn pairs_map(p: Seq<(Seq<char>, char)>) -> Map<Seq<char>, char>
    decreases p.len(),
{
    if p.len() == 0 {
        Map::empty()
    } else {
        let m = pairs_map(p.drop_last());
        let (k, c) = p.last();
        if k.len() >= 2 {
            insert_absent(m, k, c)
        } else {
            m
        }
    }
}

pub proof fn lemma_sorted_unique(e: Seq<Composition>, i: int, j: int)
    requires
        strictly_sorted(e),
        0 <= i < e.len(),
        0 <= j < e.len(),
        e[i].long@ == e[j].long@,
    ensures
        i == j,
{
    if i < j || j < i {
        lemma_lex_irreflexive(e[i].long@);
    }
}

pub proof fn lemma_entries_map_at(e: Seq<Composition>, i: int)
    requires
        strictly_sorted(e),
        0 <= i < e.len(),
    ensures
        entries_map(e).contains_key(e[i].long@),
        entries_map(e)[e[i].long@] == e[i].short,
{
    let k = e[i].long@;
    assert(has_key(e, k));
    let j = key_index(e, k);
    lemma_sorted_unique(e, i, j);
}

/// Entries that agree in decomposition and composed character, index by index,
/// hold the same mapping.
pub proof fn lemma_entries_map_same_views(a: Seq<Composition>, b: Seq<Composition>)
    requires
        strictly_sorted(a),
        a.len() == b.len(),
        forall|i: int|
            0 <= i < a.len() ==> (#[trigger] a[i]).long@ == b[i].long@ && a[i].short == b[i].short,
    ensures
        strictly_sorted(b),
        entries_map(a) == entries_map(b),
{
    assert forall|i: int, j: int| 0 <= i < j < b.len() implies lex_lt(
        #[trigger] b[i].long@,
        #[trigger] b[j].long@,
    ) by {
        assert(a[i].long@ == b[i].long@);
        assert(a[j].long@ == b[j].long@);
    }
    assert forall|k: Seq<char>| #[trigger] entries_map(a).contains_key(k) == entries_map(
        b,
    ).contains_key(k) by {
        if has_key(a, k) {
            let i = key_index(a, k);
            assert(b[i].long@ == k);
        }
        if has_key(b, k) {
            let i = key_index(b, k);
            assert(a[i].long@ == k);
        }
    }
    assert forall|k: Seq<char>| #[trigger] entries_map(a).contains_key(k) implies entries_map(
        a,
    )[k] == entries_map(b)[k] by {
        let i = key_index(a, k);
        assert(a[i].long@ == b[i].long@);
        lemma_entries_map_at(a, i);
        lemma_entries_map_at(b, i);
    }
    assert(entries_map(a) =~= entries_map(b));
}

/// A copy of the entries, equal to them in decomposition and composed character.
pub fn copy_entries(e: &Vec<Composition>) -> (r: Vec<Composition>)
    ensures
        r@.len() == e@.len(),
        forall|i: int|
            0 <= i < e@.len() ==> (#[trigger] r@[i]).long@ == e@[i].long@ && r@[i].short
                == e@[i].short,
{
    let mut r: Vec<Composition> = Vec::new();
    let mut i: usize = 0;
    while i < e.len()
        invariant
            i <= e@.len(),
            r@.len() == i,
            forall|j: int|
                0 <= j < i ==> (#[trigger] r@[j]).long@ == e@[j].long@ && r@[j].short == e@[j].short,
        decreases e@.len() - i,
    {
        let long = vstd::slice::slice_to_vec(e[i].long.as_slice());
        r.push(Composition { long, short: e[i].short });
        i = i + 1;
    }
    r
}

/// Relies on superslice's `lower_bound_by_key`: on a slice ordered by key, the
/// index of the first element whose key is not less than `q`.
#[verifier::external_body]
pub(crate) fn lower_bound_long(entries: &[Composition], q: &[char]) -> (r: usize)
    requires
        strictly_sorted(entries@),
    ensures
        r <= entries@.len(),
        forall|i: int| 0 <= i < r ==> lex_lt(#[trigger] entries@[i].long@, q@),
        forall|i: int| r <= i < entries@.len() ==> !lex_lt(#[trigger] entries@[i].long@, q@),
{
    entries.lower_bound_by_key(&q, |e| e.long.as_slice())
}

pub fn same_chars(a: &[char], b: &[char]) -> (r: bool)
    ensures
        r == (a@ == b@),
{
    if a.len() != b.len() {
        return false;
    }
    let mut i: usize = 0;
    while i < a.len()
        invariant
            a@.len() == b@.len(),
            i <= a@.len(),
            forall|j: int| 0 <= j < i ==> a@[j] == b@[j],
        decreases a@.len() - i,
    {
        if a[i] != b[i] {
            return false;
        }
        i = i + 1;
    }
    proof {
        assert(a@ =~= b@);
    }
    true
}

/// Puts `item` in its place in a sorted list, unless its key is there already.
pub fn insert_if_absent(entries: &mut Vec<Composition>, item: Composition) -> (added: bool)
    requires
        strictly_sorted(old(entries)@),
    ensures
        strictly_sorted(final(entries)@),
        added == !entries_map(old(entries)@).contains_key(item.long@),
        entries_map(final(entries)@) == insert_absent(
            entries_map(old(entries)@),
            item.long@,
            item.short,
        ),
        forall|i: int|
            0 <= i < final(entries)@.len() ==> (exists|j: int|
                0 <= j < old(entries)@.len() && #[trigger] final(entries)@[i] == old(entries)@[j])
                || final(entries)@[i] == item,
{
    let pos = lower_bound_long(entries.as_slice(), item.long.as_slice());
    let ghost e0 = entries@;
    let ghost k = item.long@;
    if pos < entries.len() && same_chars(entries[pos].long.as_slice(), item.long.as_slice()) {
        proof {
            lemma_entries_map_at(e0, pos as int);
        }
        return false;
    }
    proof {
        if has_key(e0, k) {
            let j = choose|j: int| 0 <= j < e0.len() && (#[trigger] e0[j]).long@ == k;
            lemma_lex_irreflexive(k);
            if j > pos {
                lemma_lex_transitive(e0[pos as int].long@, e0[j].long@, k);
                lemma_lex_total(e0[pos as int].long@, k);
                lemma_lex_irreflexive(k);
            }
        }
    }
    entries.insert(pos, item);
    proof {
        let e1 = entries@;
        assert forall|i: int, j: int| 0 <= i < j < e1.len() implies lex_lt(
            #[trigger] e1[i].long@,
            #[trigger] e1[j].long@,
        ) by {
            if j == pos {
                assert(e1[i] == e0[i]);
            } else if i == pos {
                assert(e1[j] == e0[j - 1]);
                lemma_lex_total(e0[j - 1].long@, k);
                if j - 1 > pos {
                    assert(!lex_lt(e0[pos as int].long@, k));
                    if lex_lt(e0[j - 1].long@, k) {
                        lemma_lex_transitive(e0[pos as int].long@, e0[j - 1].long@, k);
                    }
                    if e0[pos as int].long@ == k {
                        assert(false);
                    }
                }
            } else if i < pos && j > pos {
                assert(e1[i] == e0[i]);
                assert(e1[j] == e0[j - 1]);
            } else if j < pos {
                assert(e1[i] == e0[i]);
                assert(e1[j] == e0[j]);
            } else {
                assert(e1[i] == e0[i - 1]);
                assert(e1[j] == e0[j - 1]);
            }
        }
        let m0 = entries_map(e0);
        let m1 = entries_map(e1);
        assert forall|key: Seq<char>| #[trigger] m1.contains_key(key) == m0.insert(
            k,
            item.short,
        ).contains_key(key) by {
            if has_key(e1, key) {
                let i = choose|i: int| 0 <= i < e1.len() && (#[trigger] e1[i]).long@ == key;
                if i < pos {
                    assert(e1[i] == e0[i]);
                } else if i > pos {
                    assert(e1[i] == e0[i - 1]);
                }
            }
            if has_key(e0, key) {
                let i = choose|i: int| 0 <= i < e0.len() && (#[trigger] e0[i]).long@ == key;
                if i < pos {
                    assert(e1[i] == e0[i]);
                } else {
                    assert(e1[i + 1] == e0[i]);
                }
            }
            if key == k {
                assert(e1[pos as int] == item);
            }
        }
        assert forall|key: Seq<char>| #[trigger] m1.contains_key(key) implies m1[key] == m0.insert(
            k,
            item.short,
        )[key] by {
            let i = choose|i: int| 0 <= i < e1.len() && (#[trigger] e1[i]).long@ == key;
            lemma_entries_map_at(e1, i);
            if i < pos {
                assert(e1[i] == e0[i]);
                lemma_entries_map_at(e0, i);
            } else if i > pos {
                assert(e1[i] == e0[i - 1]);
                lemma_entries_map_at(e0, i - 1);
            }
        }
        assert(m1 =~= m0.insert(k, item.short));
        assert forall|i: int| 0 <= i < e1.len() implies (exists|j: int|
            0 <= j < e0.len() && #[trigger] e1[i] == e0[j]) || e1[i] == item by {
            if i < pos {
                assert(e1[i] == e0[i]);
            } else if i > pos {
                assert(e1[i] == e0[i - 1]);
            }
        }
    }
    true
}


/// A composition table: entries strictly ascending by decomposition, and whether
/// input is lowercased before it is looked up.
pub struct CompositionTable {
    pub entries: Vec<Composition>,
    pub fold_case: bool,
}

impl View for CompositionTable {
    type V = Map<Seq<char>, char>;

    open spec fn view(&self) -> Map<Seq<char>, char> {
        entries_map(self.entries@)
    }
}

impl CompositionTable {
    pub open spec fn wf(&self) -> bool {
        strictly_sorted(self.entries@) && forall|i: int|
            0 <= i < self.entries@.len() ==> (#[trigger] self.entries@[i]).long@.len() >= 2
    }
}

/// The pairs as sequences of characters.
pub open spec fn pairs_view(p: Seq<(Vec<char>, char)>) -> Seq<(Seq<char>, char)> {
    p.map_values(|x: (Vec<char>, char)| (x.0@, x.1))
}

impl CompositionTable {
    /// A table of the given pairs: for a decomposition given twice the first
    /// composed character stays, and one shorter than two characters is left out.
    pub fn from_entries(pairs: Vec<(Vec<char>, char)>, fold_case: bool) -> (t: CompositionTable)
        ensures
            t.wf(),
            t.fold_case == fold_case,
            t@ == pairs_map(pairs_view(pairs@)),
    {
        let ghost pv = pairs_view(pairs@);
        let mut entries: Vec<Composition> = Vec::new();
        let mut i: usize = 0;
        proof {
            assert(pv.take(0) =~= Seq::<(Seq<char>, char)>::empty());
            assert(entries_map(entries@) =~= Map::<Seq<char>, char>::empty());
        }
        while i < pairs.len()
            invariant
                i <= pairs@.len(),
                pv == pairs_view(pairs@),
                strictly_sorted(entries@),
                forall|j: int| 0 <= j < entries@.len() ==> (#[trigger] entries@[j]).long@.len() >= 2,
                entries_map(entries@) == pairs_map(pv.take(i as int)),
            decreases pairs@.len() - i,
        {
            let ghost before = entries@;
            let long = vstd::slice::slice_to_vec(pairs[i].0.as_slice());
            let short = pairs[i].1;
            proof {
                assert(pv.take(i + 1).drop_last() =~= pv.take(i as int));
                assert(pv.take(i + 1).last() == pv[i as int]);
            }
            if long.len() >= 2 {
                insert_if_absent(&mut entries, Composition { long, short });
                proof {
                    assert forall|j: int| 0 <= j < entries@.len() implies (
                    #[trigger] entries@[j]).long@.len() >= 2 by {
                        if exists|k: int| 0 <= k < before.len() && entries@[j] == before[k] {
                            let k = choose|k: int| 0 <= k < before.len() && entries@[j] == before[k];
                            assert(before[k].long@.len() >= 2);
                        }
                    }
                }
            }
            i = i + 1;
        }
        proof {
            assert(pv.take(pairs@.len() as int) =~= pv);
        }
        CompositionTable { entries, fold_case }
    }

    /// The number of entries.
    pub fn len(&self) -> (r: usize)
        ensures
            r == self.entries@.len(),
    {
        self.entries.len()
    }

    /// The composed character that the table gives for `long`, if any.
    pub fn lookup(&self, long: &[char]) -> (r: Option<char>)
        requires
            self.wf(),
        ensures
            r.is_some() == self@.contains_key(long@),
            r.is_some() ==> r.unwrap() == self@[long@],
    {
        let pos = lower_bound_long(self.entries.as_slice(), long);
        if pos < self.entries.len() && same_chars(self.entries[pos].long.as_slice(), long) {
            proof {
                lemma_entries_map_at(self.entries@, pos as int);
            }
            Some(self.entries[pos].short)
        } else {
            proof {
                let e = self.entries@;
                if has_key(e, long@) {
                    let j = key_index(e, long@);
                    lemma_lex_irreflexive(long@);
                    if j > pos {
                        lemma_lex_transitive(e[pos as int].long@, e[j].long@, long@);
                        lemma_lex_total(e[pos as int].long@, long@);
                        lemma_lex_irreflexive(long@);
                    }
                }
            }
            None
        }
    }
}

} // verus!
