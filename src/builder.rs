use vstd::prelude::*;
use unicode_normalization::char::decompose_compatible;
use crate::order::lex_lt;
use crate::table::{
    copy_entries, entries_map, insert_absent, insert_if_absent, lemma_entries_map_same_views,
    lower_bound_long, strictly_sorted, Composition, CompositionTable,
};

verus! {

/// A code point left out of every table: its decomposition does not read as
/// the character does.
pub const BANNED: char = '\u{1F14D}';

/// The first code point scanned: below it all is ASCII.
pub const FIRST_CODE_POINT: u32 = 0x80;

/// The end of the scan, itself not scanned.
pub const END_CODE_POINT: u32 = 0x10FFFF;

/// What `unicode_normalization::char::decompose_compatible` emits for a character.
pub uninterp spec fn compat_decomposition(c: char) -> Seq<char>;

/// What `str::to_lowercase` gives for a string.
pub uninterp spec fn str_lower_of(s: Seq<char>) -> Seq<char>;

/// `n` is the number of a `char`.
pub open spec fn is_code_point(n: u32) -> bool {
    n < 0xD800 || (0xDFFF < n && n <= 0x10FFFF)
}

/// The character numbered `n`.
pub open spec fn char_at(n: u32) -> char {
    choose|c: char| #[trigger] (c as u32) == n
}

/// The decomposition of `c` as a table stores it.
pub open spec fn decomposition_key(lowercase: bool, c: char) -> Seq<char> {
    if lowercase {
        str_lower_of(compat_decomposition(c))
    } else {
        compat_decomposition(c)
    }
}

/// The table that the code points from `FIRST_CODE_POINT` up to `n` (not
/// included) give: each character whose decomposition has at least two
/// characters, the lowest code point winning for a decomposition.
pub open spec fn base_map(lowercase: bool, n: u32) -> Map<Seq<char>, char>
    decreases n,
{
    if n <= FIRST_CODE_POINT {
        Map::empty()
    } else {
        let m = base_map(lowercase, (n - 1) as u32);
        let k = (n - 1) as u32;
        let c = char_at(k);
        if is_code_point(k) && c != BANNED && decomposition_key(lowercase, c).len() >= 2 {
            insert_absent(m, decomposition_key(lowercase, c), c)
        } else {
            m
        }
    }
}

/// Relies on `char::from_u32`: the character numbered `n`, or `None` where no
/// character has that number.
#[verifier::external_body]
fn char_from_u32(n: u32) -> (r: Option<char>)
    ensures
        r.is_some() == is_code_point(n),
        r.is_some() ==> r.unwrap() as u32 == n,
{
    char::from_u32(n)
}

/// Relies on `unicode_normalization::char::decompose_compatible`: the
/// compatibility decomposition of `c`.
#[verifier::external_body]
fn decompose(c: char) -> (r: Vec<char>)
    ensures
        r@ == compat_decomposition(c),
{
    let mut out: Vec<char> = Vec::new();
    decompose_compatible(c, |d| out.push(d));
    out
}

/// Relies on `str::to_lowercase`: the lowercase form of the string of `s`.
#[verifier::external_body]
fn lowercase_chars(s: &[char]) -> (r: Vec<char>)
    ensures
        r@ == str_lower_of(s@),
{
    let text: String = s.iter().collect();
    text.to_lowercase().chars().collect()
}

proof fn lemma_char_at(c: char, n: u32)
    requires
        c as u32 == n,
    ensures
        char_at(n) == c,
{
    let d = char_at(n);
    assert(d as u32 == n);
}

/// Builds the table of all compatibility decompositions, lowercased or as they are.
pub fn build_composition_database(lowercase: bool) -> (t: CompositionTable)
    ensures
        t.wf(),
        t.fold_case == lowercase,
        t@ == base_map(lowercase, END_CODE_POINT),
{
    let mut entries: Vec<Composition> = Vec::new();
    let mut n: u32 = FIRST_CODE_POINT;
    proof {
        assert(entries_map(entries@) =~= Map::<Seq<char>, char>::empty());
    }
    while n < END_CODE_POINT
        invariant
            FIRST_CODE_POINT <= n <= END_CODE_POINT,
            strictly_sorted(entries@),
            forall|i: int| 0 <= i < entries@.len() ==> (#[trigger] entries@[i]).long@.len() >= 2,
            entries_map(entries@) == base_map(lowercase, n),
        decreases END_CODE_POINT - n,
    {
        let ghost before = entries@;
        match char_from_u32(n) {
            Some(c) => {
                proof {
                    lemma_char_at(c, n);
                }
                if c != BANNED {
                    let d = decompose(c);
                    let key = if lowercase {
                        lowercase_chars(d.as_slice())
                    } else {
                        d
                    };
                    if key.len() >= 2 {
                        insert_if_absent(&mut entries, Composition { long: key, short: c });
                        proof {
                            assert forall|i: int| 0 <= i < entries@.len() implies (
                            #[trigger] entries@[i]).long@.len() >= 2 by {
                                if exists|j: int| 0 <= j < before.len() && entries@[i] == before[j] {
                                    let j = choose|j: int|
                                        0 <= j < before.len() && entries@[i] == before[j];
                                    assert(before[j].long@.len() >= 2);
                                }
                            }
                        }
                    }
                }
            },
            None => {},
        }
        n = n + 1;
    }
    CompositionTable { entries, fold_case: lowercase }
}

pub open spec fn is_punct(c: char) -> bool {
    c == '.' || c == ',' || c == '/'
}

/// The punctuation characters in the order in which they are stripped: a
/// variant found through an earlier one wins.
pub open spec fn punct_at(i: int) -> char {
    if i == 0 {
        '.'
    } else if i == 1 {
        ','
    } else {
        '/'
    }
}

pub open spec fn is_digit(c: char) -> bool {
    '0' <= c && c <= '9'
}

/// `s` with every punctuation character left out.
pub open spec fn strip_punct(s: Seq<char>) -> Seq<char>
    decreases s.len(),
{
    if s.len() == 0 {
        s
    } else if is_punct(s.last()) {
        strip_punct(s.drop_last())
    } else {
        strip_punct(s.drop_last()).push(s.last())
    }
}

/// Some entry's decomposition is not below `k`: `k` lies within the table.
pub open spec fn in_bounds(e: Seq<Composition>, k: Seq<char>) -> bool {
    exists|i: int| 0 <= i < e.len() && !lex_lt(#[trigger] e[i].long@, k)
}

/// Entry `j` of `e` gives a variant without punctuation when `punct_at(pi)` is
/// stripped.
pub open spec fn gives_variant(e: Seq<Composition>, pi: int, j: int) -> bool {
    let src = e[j].long@;
    let k = strip_punct(src);
    !is_digit(src[0]) && src.contains(punct_at(pi)) && k.len() >= 2 && in_bounds(e, k)
}

/// The mapping after the punctuation characters before `pi` have been tried on
/// every entry, and `punct_at(pi)` on the first `j`; an existing key is never
/// replaced.
pub open spec fn depunct_upto(e: Seq<Composition>, pi: int, j: int) -> Map<Seq<char>, char>
    decreases pi, j,
{
    if j <= 0 {
        if pi <= 0 {
            entries_map(e)
        } else {
            depunct_upto(e, pi - 1, e.len() as int)
        }
    } else {
        let prev = depunct_upto(e, pi, j - 1);
        if gives_variant(e, pi, j - 1) {
            insert_absent(prev, strip_punct(e[j - 1].long@), e[j - 1].short)
        } else {
            prev
        }
    }
}

/// The table `e` with its punctuation-free variants added.
pub open spec fn depunctuated(e: Seq<Composition>) -> Map<Seq<char>, char> {
    depunct_upto(e, 2, e.len() as int)
}

fn punct_char(pi: usize) -> (r: char)
    ensures
        r == punct_at(pi as int),
{
    if pi == 0 {
        '.'
    } else if pi == 1 {
        ','
    } else {
        '/'
    }
}

fn contains_char(s: &[char], c: char) -> (r: bool)
    ensures
        r == s@.contains(c),
{
    let mut i: usize = 0;
    while i < s.len()
        invariant
            i <= s@.len(),
            forall|j: int| 0 <= j < i ==> s@[j] != c,
        decreases s@.len() - i,
    {
        if s[i] == c {
            return true;
        }
        i = i + 1;
    }
    false
}

fn strip_punctuation(s: &[char]) -> (r: Vec<char>)
    ensures
        r@ == strip_punct(s@),
{
    let mut r: Vec<char> = Vec::new();
    let mut i: usize = 0;
    proof {
        assert(s@.take(0) =~= Seq::<char>::empty());
    }
    while i < s.len()
        invariant
            i <= s@.len(),
            r@ == strip_punct(s@.take(i as int)),
        decreases s@.len() - i,
    {
        let c = s[i];
        proof {
            assert(s@.take(i + 1).drop_last() =~= s@.take(i as int));
        }
        if !(c == '.' || c == ',' || c == '/') {
            r.push(c);
        }
        i = i + 1;
    }
    proof {
        assert(s@.take(s@.len() as int) =~= s@);
    }
    r
}

/// Adds to the table, for each entry whose decomposition holds punctuation and
/// does not begin with a digit, the same entry with the punctuation left out,
/// where that key is new and lies within the table.
pub fn ignore_punctuation(db: &mut CompositionTable)
    requires
        old(db).wf(),
    ensures
        final(db).wf(),
        final(db).fold_case == old(db).fold_case,
        final(db)@ == depunctuated(old(db).entries@),
{
    let ghost e = db.entries@;
    let n = db.entries.len();
    let mut out = copy_entries(&db.entries);
    proof {
        lemma_entries_map_same_views(e, out@);
    }
    let mut pi: usize = 0;
    while pi < 3
        invariant
            e == db.entries@,
            n == e.len(),
            old(db).wf(),
            e == old(db).entries@,
            pi <= 3,
            strictly_sorted(out@),
            forall|i: int| 0 <= i < out@.len() ==> (#[trigger] out@[i]).long@.len() >= 2,
            pi == 0 ==> entries_map(out@) == entries_map(e),
            pi > 0 ==> entries_map(out@) == depunct_upto(e, pi - 1, n as int),
        decreases 3 - pi,
    {
        let p = punct_char(pi);
        let mut j: usize = 0;
        while j < n
            invariant
                e == db.entries@,
                n == e.len(),
                old(db).wf(),
                e == old(db).entries@,
                pi < 3,
                p == punct_at(pi as int),
                j <= n,
                strictly_sorted(out@),
                forall|i: int| 0 <= i < out@.len() ==> (#[trigger] out@[i]).long@.len() >= 2,
                entries_map(out@) == depunct_upto(e, pi as int, j as int),
            decreases n - j,
        {
            let ghost before = out@;
            let src = db.entries[j].long.as_slice();
            assert(e[j as int].long@.len() >= 2);
            if !(src[0] >= '0' && src[0] <= '9') && contains_char(src, p) {
                let stripped = strip_punctuation(src);
                if stripped.len() >= 2 {
                    let pos = lower_bound_long(db.entries.as_slice(), stripped.as_slice());
                    proof {
                        if pos < n {
                            assert(!lex_lt(e[pos as int].long@, stripped@));
                            assert(in_bounds(e, stripped@));
                        } else if in_bounds(e, stripped@) {
                            let i = choose|i: int| 0 <= i < e.len() && !lex_lt(#[trigger] e[i].long@, stripped@);
                            assert(false);
                        }
                    }
                    if pos < n {
                        insert_if_absent(
                            &mut out,
                            Composition { long: stripped, short: db.entries[j].short },
                        );
                        proof {
                            assert forall|i: int| 0 <= i < out@.len() implies (
                            #[trigger] out@[i]).long@.len() >= 2 by {
                                if exists|k: int| 0 <= k < before.len() && out@[i] == before[k] {
                                    let k = choose|k: int|
                                        0 <= k < before.len() && out@[i] == before[k];
                                    assert(before[k].long@.len() >= 2);
                                }
                            }
                        }
                    }
                }
            }
            j = j + 1;
        }
        pi = pi + 1;
    }
    db.entries = out;
}

} // verus!
