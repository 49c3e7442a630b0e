use std::cmp::Ordering;

use wordcount::rank::compare_entries;
use wordcount::{
    count_batch, count_chunked, count_words, count_words_chunked, merge_all, merge_counts,
    rank_partials, CountError, Tokenizer, WordCounts,
};

fn files(texts: &[&str]) -> Vec<Option<Vec<u8>>> {
    texts.iter().map(|t| Some(t.as_bytes().to_vec())).collect()
}

fn sorted_pairs(v: &[(String, u32)]) -> Vec<(String, u32)> {
    let mut out = v.to_vec();
    out.sort();
    out
}

fn is_descending(v: &[(String, u32)]) -> bool {
    v.windows(2).all(|p| p[0].1 >= p[1].1)
}

#[test]
fn word_count() {
    let tok = Tokenizer::new();
    let r = count_words(&tok, &files(&["one two two three three three"])).unwrap();
    assert_eq!(
        r,
        vec![("three".to_string(), 3), ("two".to_string(), 2), ("one".to_string(), 1)]
    );
}

fn check_two_file_scenario(r: &[(String, u32)]) {
    assert_eq!(r.len(), 4);
    let mut top = vec![r[0].clone(), r[1].clone()];
    top.sort();
    assert_eq!(top, vec![("sat".to_string(), 2), ("the".to_string(), 2)]);
    let mut tail = vec![r[2].clone(), r[3].clone()];
    tail.sort();
    assert_eq!(tail, vec![("cat".to_string(), 1), ("dog".to_string(), 1)]);
}

#[test]
fn two_files_one_worker() {
    let tok = Tokenizer::new();
    let fs = files(&["the cat sat", "the dog sat"]);
    check_two_file_scenario(&count_words(&tok, &fs).unwrap());
}

#[test]
fn two_files_four_workers() {
    let tok = Tokenizer::new();
    let fs = files(&["the cat sat", "the dog sat"]);
    let parts: Vec<WordCounts> = vec![
        count_batch(&tok, &fs[0..1]).unwrap(),
        count_batch(&tok, &fs[1..2]).unwrap(),
        count_batch(&tok, &fs[2..2]).unwrap(),
        count_batch(&tok, &fs[2..2]).unwrap(),
    ];
    check_two_file_scenario(&rank_partials(parts).unwrap());
    check_two_file_scenario(&count_words_chunked(&tok, &fs, 1).unwrap());
}

#[test]
fn empty_file_set_gives_empty_result() {
    let tok = Tokenizer::new();
    let none: Vec<Option<Vec<u8>>> = Vec::new();
    assert_eq!(count_words(&tok, &none).unwrap(), vec![]);
    assert_eq!(count_words_chunked(&tok, &none, 200).unwrap(), vec![]);
    assert_eq!(rank_partials(Vec::new()).unwrap(), vec![]);
}

#[test]
fn unreadable_file_is_skipped() {
    let tok = Tokenizer::new();
    let fs = vec![None, Some(b"alpha beta alpha".to_vec())];
    let r = count_words(&tok, &fs).unwrap();
    assert_eq!(r, vec![("alpha".to_string(), 2), ("beta".to_string(), 1)]);
}

#[test]
fn invalid_utf8_file_is_skipped_by_any_worker() {
    let tok = Tokenizer::new();
    let bad = Some(vec![0x66u8, 0x6f, 0xff, 0xfe, 0x6f]);
    let good = Some(b"word".to_vec());
    let alone = count_words(&tok, &[good.clone()]).unwrap();
    let with_bad_first = count_words(&tok, &[bad.clone(), good.clone()]).unwrap();
    let with_bad_last = count_words_chunked(&tok, &[good.clone(), bad.clone()], 1).unwrap();
    assert_eq!(alone, vec![("word".to_string(), 1)]);
    assert_eq!(with_bad_first, alone);
    assert_eq!(with_bad_last, alone);
    assert!(count_batch(&tok, &[bad]).unwrap().get("fo").is_none());
}

#[test]
fn counts_add_up_to_number_of_words() {
    let tok = Tokenizer::new();
    let fs = files(&["a b c a", "", "b b, d! e?", "Zoë's café"]);
    let r = count_words(&tok, &fs).unwrap();
    let total: u32 = r.iter().map(|e| e.1).sum();
    assert_eq!(total, 4 + 4 + 2);
}

#[test]
fn chunk_size_does_not_change_counts() {
    let tok = Tokenizer::new();
    let fs = files(&["x y", "y z", "z z x", "w", "x"]);
    let single = sorted_pairs(&count_words(&tok, &fs).unwrap());
    for chunk in 1..=6usize {
        let r = count_words_chunked(&tok, &fs, chunk).unwrap();
        assert!(is_descending(&r));
        assert_eq!(sorted_pairs(&r), single);
    }
    assert_eq!(
        single,
        vec![
            ("w".to_string(), 1),
            ("x".to_string(), 3),
            ("y".to_string(), 2),
            ("z".to_string(), 3)
        ]
    );
}

#[test]
fn result_is_sorted_by_descending_count() {
    let tok = Tokenizer::new();
    let fs = files(&["d c d b d c a d c b"]);
    let r = count_words(&tok, &fs).unwrap();
    assert!(is_descending(&r));
    assert_eq!(
        r,
        vec![
            ("d".to_string(), 4),
            ("c".to_string(), 3),
            ("b".to_string(), 2),
            ("a".to_string(), 1)
        ]
    );
}

#[test]
fn words_keep_case_apostrophes_and_letters() {
    let tok = Tokenizer::new();
    let fs = files(&["Don't don't DON'T, naïve 42 x_y"]);
    let r = sorted_pairs(&count_words(&tok, &fs).unwrap());
    assert_eq!(
        r,
        vec![
            ("DON'T".to_string(), 1),
            ("Don't".to_string(), 1),
            ("don't".to_string(), 1),
            ("naïve".to_string(), 1),
        ]
    );
}

#[test]
fn batch_counts_each_word() {
    let tok = Tokenizer::new();
    let c = count_batch(&tok, &files(&["red blue red", "red"])).unwrap();
    assert_eq!(c.get("red"), Some(3));
    assert_eq!(c.get("blue"), Some(1));
    assert_eq!(c.get("green"), None);
}

#[test]
fn merge_adds_shared_words_and_keeps_others() {
    let tok = Tokenizer::new();
    let a = count_batch(&tok, &files(&["p q q"])).unwrap();
    let b = count_batch(&tok, &files(&["q r"])).unwrap();
    let m = merge_counts(a, b).unwrap();
    assert_eq!(m.get("p"), Some(1));
    assert_eq!(m.get("q"), Some(3));
    assert_eq!(m.get("r"), Some(1));
    assert_eq!(m.get("s"), None);
}

#[test]
fn merge_all_sums_partials_in_any_order() {
    let tok = Tokenizer::new();
    let make = |t: &str| count_batch(&tok, &files(&[t])).unwrap();
    let m1 = merge_all(vec![make("a b"), make("b c"), make("c c")]).unwrap();
    let m2 = merge_all(vec![make("c c"), make("a b"), make("b c")]).unwrap();
    for w in ["a", "b", "c", "d"] {
        assert_eq!(m1.get(w), m2.get(w));
    }
    assert_eq!(m1.get("c"), Some(3));
    assert_eq!(m1.get("d"), None);
}

#[test]
fn chunked_table_matches_single_batch() {
    let tok = Tokenizer::new();
    let fs = files(&["one two", "two three", "three"]);
    let whole = count_batch(&tok, &fs).unwrap();
    let chunked = count_chunked(&tok, &fs, 2).unwrap();
    for w in ["one", "two", "three", "four"] {
        assert_eq!(whole.get(w), chunked.get(w));
    }
}

#[test]
fn empty_table_holds_nothing() {
    let c = WordCounts::new();
    assert_eq!(c.get("anything"), None);
    let e = CountError::CountOverflow;
    assert_eq!(e, CountError::CountOverflow);
}

#[test]
fn equal_counts_are_in_dictionary_order() {
    let tok = Tokenizer::new();
    let fs = files(&["the cat sat", "the dog sat"]);
    let expected = vec![
        ("sat".to_string(), 2),
        ("the".to_string(), 2),
        ("cat".to_string(), 1),
        ("dog".to_string(), 1),
    ];
    assert_eq!(count_words(&tok, &fs).unwrap(), expected);
    assert_eq!(count_words_chunked(&tok, &fs, 1).unwrap(), expected);
    let reversed = files(&["the dog sat", "the cat sat"]);
    assert_eq!(count_words(&tok, &reversed).unwrap(), expected);
}

#[test]
fn entries_compare_by_count_then_word() {
    let e = |w: &str, c: u32| (w.to_string(), c);
    assert_eq!(compare_entries(&e("b", 3), &e("a", 2)), Ordering::Less);
    assert_eq!(compare_entries(&e("a", 2), &e("b", 3)), Ordering::Greater);
    assert_eq!(compare_entries(&e("ab", 2), &e("b", 2)), Ordering::Less);
    assert_eq!(compare_entries(&e("ab", 2), &e("a", 2)), Ordering::Greater);
    assert_eq!(compare_entries(&e("Zed", 1), &e("apple", 1)), Ordering::Less);
    assert_eq!(compare_entries(&e("café", 1), &e("cafe", 1)), Ordering::Greater);
    assert_eq!(compare_entries(&e("x", 1), &e("x", 1)), Ordering::Equal);
}
