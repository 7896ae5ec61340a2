use shortener::builder::ignore_punctuation;
use shortener::engine::{find_range_starting, shorten_str_with_db};
use shortener::table::CompositionTable;
use shortener::{shorten_str, ShortenMode};

fn chars(s: &str) -> Vec<char> {
    s.chars().collect()
}

fn table(pairs: &[(&str, char)], fold_case: bool) -> CompositionTable {
    let v: Vec<(Vec<char>, char)> = pairs.iter().map(|(k, c)| (chars(k), *c)).collect();
    CompositionTable::from_entries(v, fold_case)
}

#[test]
fn empty_input_is_unchanged() {
    let t = table(&[("no", '№')], true);
    assert_eq!(shorten_str_with_db("", &t), "");
}

#[test]
fn no_becomes_numero_sign() {
    let t = table(&[("no", '№')], true);
    let r = shorten_str_with_db("no", &t);
    assert_eq!(r, "№");
    assert_eq!(r.chars().count(), 1);
}

#[test]
fn abno_keeps_prefix() {
    let t = table(&[("no", '№')], true);
    let r = shorten_str_with_db("abno", &t);
    assert_eq!(r, "ab№");
    assert_eq!(r.chars().count(), 3);
}

#[test]
fn optimal_single_character() {
    let t = table(&[("no", 'X'), ("nob", 'Y')], true);
    assert_eq!(shorten_str_with_db("no", &t).chars().count(), 1);
}

#[test]
fn non_greedy_split_wins() {
    let t = table(&[("ab", 'X'), ("bcd", 'Y')], true);
    assert_eq!(shorten_str_with_db("abcd", &t), "aY");
}

#[test]
fn longest_match_not_forced() {
    let t = table(&[("abc", 'X'), ("cdef", 'Y'), ("ab", 'Z')], true);
    assert_eq!(shorten_str_with_db("abcdef", &t), "ZY");
}

#[test]
fn case_insensitive_table_folds_input() {
    let t = table(&[("no", '№')], true);
    assert_eq!(shorten_str_with_db("NO", &t), "№");
    assert_eq!(shorten_str_with_db("No", &t), "№");
}

#[test]
fn case_preserving_table_needs_same_case() {
    let t = table(&[("No", '№')], false);
    assert_eq!(shorten_str_with_db("NO", &t), "NO");
    assert_eq!(shorten_str_with_db("no", &t), "no");
    assert_eq!(shorten_str_with_db("No", &t), "№");
}

#[test]
fn punctuation_variant_only_in_depunctuated_table() {
    let base = table(&[("c/o", '℅'), ("zz", 'Z')], true);
    let mut depunct = table(&[("c/o", '℅'), ("zz", 'Z')], true);
    ignore_punctuation(&mut depunct);
    assert_eq!(shorten_str_with_db("co", &base), "co");
    assert_eq!(shorten_str_with_db("co", &depunct), "℅");
    assert_eq!(shorten_str_with_db("c/o", &base), "℅");
    assert_eq!(depunct.lookup(&chars("co")), Some('℅'));
    assert_eq!(base.lookup(&chars("co")), None);
}

#[test]
fn punctuation_variant_skips_digits_and_out_of_range() {
    let mut t = table(&[("1.5", 'A'), ("a.b", 'B')], true);
    ignore_punctuation(&mut t);
    assert_eq!(t.lookup(&chars("15")), None);
    // "ab" sorts after every key of the table, so it is not added
    assert_eq!(t.lookup(&chars("ab")), None);
    let mut u = table(&[("a.b", 'B'), ("zz", 'Z')], true);
    ignore_punctuation(&mut u);
    assert_eq!(u.lookup(&chars("ab")), Some('B'));
}

#[test]
fn punctuation_variant_keeps_existing_key() {
    let mut t = table(&[("a.b", 'B'), ("ab", 'C'), ("zz", 'Z')], true);
    ignore_punctuation(&mut t);
    assert_eq!(t.lookup(&chars("ab")), Some('C'));
}

#[test]
fn period_variant_wins_over_slash() {
    let mut t = table(&[("a/b", 'S'), ("a.b", 'P'), ("zz", 'Z')], true);
    ignore_punctuation(&mut t);
    assert_eq!(t.lookup(&chars("ab")), Some('P'));
}

#[test]
fn irreducible_input_is_unchanged() {
    let t = table(&[("no", '№'), ("xyz", 'Q')], true);
    assert_eq!(shorten_str_with_db("hello world", &t), "hello world");
}

#[test]
fn output_never_longer() {
    let t = table(&[("ab", 'X'), ("ba", 'Y'), ("aba", 'Z')], true);
    let input = "abababba";
    let r = shorten_str_with_db(input, &t);
    assert!(r.chars().count() <= input.chars().count());
    assert_eq!(r.chars().count(), 4);
}

#[test]
fn first_entry_for_a_key_stays() {
    let t = table(&[("ab", 'X'), ("ab", 'Y'), ("a", 'Z')], true);
    assert_eq!(t.lookup(&chars("ab")), Some('X'));
    assert_eq!(t.lookup(&chars("a")), None);
    assert_eq!(t.len(), 1);
}

#[test]
fn real_table_shortens_numero() {
    assert_eq!(shorten_str("no", ShortenMode::Normal), "№");
    assert_eq!(shorten_str("", ShortenMode::Normal), "");
}

#[test]
fn real_tables_punctuation_and_case() {
    assert_eq!(shorten_str("c/o", ShortenMode::WithPunctuation), "℅");
    assert_eq!(shorten_str("No", ShortenMode::SameCase).chars().count(), 1);
}

#[test]
fn range_of_entries_with_prefix() {
    let t = table(&[("ba", 'A'), ("ab", 'B'), ("abc", 'C'), ("ac", 'D'), ("aab", 'E')], true);
    let keys: Vec<String> = t.entries.iter().map(|e| e.long().iter().collect()).collect();
    assert_eq!(keys, vec!["aab", "ab", "abc", "ac", "ba"]);
    assert_eq!(find_range_starting(&chars("ab"), &t.entries), 1..3);
    assert_eq!(find_range_starting(&chars("a"), &t.entries), 0..4);
    assert_eq!(find_range_starting(&chars("abd"), &t.entries).len(), 0);
    assert_eq!(t.entries[1].short(), 'B');
}
