use closestmatch::new;
use closestmatch::scorer::{evaluate, max_score, ScoreValue};
use closestmatch::splitter::split_word;

fn sorted(v: Vec<String>) -> Vec<String> {
    let mut v = v;
    v.sort();
    v
}

fn strings(v: &[&str]) -> Vec<String> {
    v.iter().map(|s| s.to_string()).collect()
}

#[test]
fn it_works() {
    let cm = new(["hello".to_string(), "bullo".to_string(), "hello world".to_string()].to_vec(), [1, 2, 3].to_vec());
    let closest = cm.get_closest("hlo".to_string());
    println!("{:?}", closest);
}

#[test]
fn hlo_matches_hello() {
    let cm = new(strings(&["hello", "bullo", "hello world"]), vec![1, 2, 3]);
    assert_eq!(cm.get_closest("hlo".to_string()), Some("hello".to_string()));
}

#[test]
fn split_hello_sizes_one_to_three() {
    let got = sorted(split_word("Hello", &vec![1, 2, 3]));
    let want = sorted(strings(&["h", "e", "l", "o", "he", "el", "ll", "lo", "hel", "ell", "llo"]));
    assert_eq!(got, want);
}

#[test]
fn split_query_hlo() {
    let got = sorted(split_word("hlo", &vec![1, 2, 3]));
    assert_eq!(got, sorted(strings(&["h", "l", "o", "hl", "lo", "hlo"])));
}

#[test]
fn split_lowercases() {
    let got = sorted(split_word("ABC", &vec![1]));
    assert_eq!(got, strings(&["a", "b", "c"]));
}

#[test]
fn split_skips_sizes_longer_than_word() {
    assert!(split_word("ab", &vec![3, 4]).is_empty());
    assert_eq!(sorted(split_word("ab", &vec![5, 2])), strings(&["ab"]));
}

#[test]
fn split_ignores_size_zero() {
    assert!(split_word("abc", &vec![0]).is_empty());
    assert_eq!(sorted(split_word("abc", &vec![0, 3])), strings(&["abc"]));
}

#[test]
fn split_empty_word() {
    assert!(split_word("", &vec![1, 2]).is_empty());
}

#[test]
fn split_collapses_repeats() {
    let got = sorted(split_word("aaa", &vec![1, 2, 1]));
    assert_eq!(got, strings(&["a", "aa"]));
}

#[test]
fn split_multibyte_on_characters() {
    let got = sorted(split_word("Ünï", &vec![2]));
    assert_eq!(got, sorted(strings(&["ün", "nï"])));
}

#[test]
fn score_of_set_with_itself_is_half() {
    let a = split_word("hello", &vec![1, 2, 3]);
    let s = evaluate(&a, &a);
    assert_eq!(s.overlap(), 11);
    assert_eq!(s.total(), 22);
    assert_eq!(2 * s.overlap() as u128, s.total());
}

#[test]
fn score_of_two_empty_sets_is_zero() {
    let s = evaluate(&Vec::new(), &Vec::new());
    assert_eq!(s.overlap(), 0);
    assert_eq!(s.total(), 1);
}

#[test]
fn score_hlo_against_candidates() {
    let q = split_word("hlo", &vec![1, 2, 3]);
    let hello = evaluate(&q, &split_word("hello", &vec![1, 2, 3]));
    assert_eq!((hello.overlap(), hello.total()), (4, 17));
    let bullo = evaluate(&q, &split_word("bullo", &vec![1, 2, 3]));
    assert_eq!((bullo.overlap(), bullo.total()), (3, 17));
    let world = evaluate(&q, &split_word("hello world", &vec![1, 2, 3]));
    assert_eq!((world.overlap(), world.total()), (4, 33));
    assert!(hello.ge(&bullo));
    assert!(!bullo.ge(&hello));
    assert!(hello.ge(&world));
    assert!(!world.ge(&hello));
}

#[test]
fn score_disjoint_sets_is_zero() {
    let s = evaluate(&strings(&["a"]), &strings(&["b", "c"]));
    assert_eq!((s.overlap(), s.total()), (0, 3));
}

#[test]
fn equal_scores_compare_both_ways() {
    let a = evaluate(&strings(&["a", "b"]), &strings(&["a", "c"]));
    let b = evaluate(&strings(&["x"]), &strings(&["x", "y", "z"]));
    assert!(a.ge(&b));
    assert!(b.ge(&a));
}

#[test]
fn max_score_keeps_first_on_tie() {
    let s = evaluate(&strings(&["a"]), &strings(&["a"]));
    let r = max_score(ScoreValue { index: 0, score: s }, ScoreValue { index: 1, score: s });
    assert_eq!(r.index, 0);
    let low = evaluate(&strings(&["a"]), &strings(&["b"]));
    let r = max_score(ScoreValue { index: 0, score: low }, ScoreValue { index: 1, score: s });
    assert_eq!(r.index, 1);
}

#[test]
fn empty_dictionary_gives_no_match() {
    let cm = new(Vec::new(), vec![1, 2]);
    assert_eq!(cm.get_closest("anything".to_string()), None);
    assert_eq!(cm.get_closest(String::new()), None);
}

#[test]
fn repeated_queries_agree() {
    let cm = new(strings(&["abc", "abd", "xyz", "hello"]), vec![1, 2]);
    let first = cm.get_closest("ab".to_string());
    for _ in 0..20 {
        assert_eq!(cm.get_closest("ab".to_string()), first);
    }
    assert_eq!(first, Some("abc".to_string()));
}

#[test]
fn tie_goes_to_first_word() {
    let cm = new(strings(&["abc", "abd"]), vec![1]);
    assert_eq!(cm.get_closest("ab".to_string()), Some("abc".to_string()));
    let cm = new(strings(&["abd", "abc"]), vec![1]);
    assert_eq!(cm.get_closest("ab".to_string()), Some("abd".to_string()));
}

#[test]
fn exact_match_wins_and_keeps_case() {
    let cm = new(strings(&["bullo", "HeLLo", "hello world"]), vec![1, 2, 3]);
    assert_eq!(cm.get_closest("hello".to_string()), Some("HeLLo".to_string()));
    assert_eq!(cm.get_closest("HELLO".to_string()), Some("HeLLo".to_string()));
}

#[test]
fn duplicate_words_kept_once() {
    let cm = new(strings(&["same", "same", "other"]), vec![1, 2]);
    assert_eq!(cm.get_closest("same".to_string()), Some("same".to_string()));
}

#[test]
fn query_with_no_grams_picks_first_word() {
    let cm = new(strings(&["ab", "cd"]), vec![3]);
    assert_eq!(cm.get_closest("x".to_string()), Some("ab".to_string()));
}
