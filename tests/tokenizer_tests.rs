use wcloud::freq::{count_words, keep_common_case};
use wcloud::rank::rank_words;
use wcloud::ChineseTokenizer;

fn tokenizer() -> ChineseTokenizer {
    ChineseTokenizer::new(r"\w[\w']*".to_string())
}

fn strings(list: &[&str]) -> Vec<String> {
    list.iter().map(|s| s.to_string()).collect()
}

#[test]
fn case_variants_merge() {
    let t = tokenizer().with_min_word_leng(1);
    let r = t.get_normalized_word_frequencies("Rust rust RUST");
    assert_eq!(r, vec![("rust".to_string(), 3)]);
}

#[test]
fn counting_by_exact_text() {
    let r = count_words(&strings(&["a", "b", "a", "c", "a"]));
    assert_eq!(r, vec![("a".to_string(), 3), ("b".to_string(), 1), ("c".to_string(), 1)]);
}

#[test]
fn merge_picks_most_common_case() {
    let counts = vec![("Word".to_string(), 5), ("word".to_string(), 2), ("WORD".to_string(), 1), ("x".to_string(), 1)];
    let r = keep_common_case(&counts);
    assert_eq!(r, vec![("Word".to_string(), 8), ("x".to_string(), 1)]);
}

#[test]
fn ranking_order_and_truncation() {
    let entries = vec![("b".to_string(), 2), ("a".to_string(), 2), ("c".to_string(), 5), ("d".to_string(), 1)];
    let r = rank_words(&entries, 0);
    assert_eq!(r, vec![("c".to_string(), 5), ("a".to_string(), 2), ("b".to_string(), 2), ("d".to_string(), 1)]);
    let r = rank_words(&entries, 2);
    assert_eq!(r, vec![("c".to_string(), 5), ("a".to_string(), 2)]);
}

#[test]
fn normalized_weights_top_is_one() {
    let t = tokenizer();
    let r = t.get_normalized_word_frequencies("apple banana apple cherry apple banana");
    assert_eq!(r[0], ("apple".to_string(), 3));
    for (_, c) in &r {
        assert!(*c > 0 && *c <= r[0].1);
    }
    assert_eq!(r.len(), 3);
}

#[test]
fn numbers_and_short_words_filtered() {
    let t = tokenizer().with_min_word_leng(3);
    assert!(!t.keep_token("123"));
    assert!(!t.keep_token("ab"));
    assert!(t.keep_token("abc"));
    let t = t.with_exclude_numbers(false);
    assert!(t.keep_token("123"));
}

#[test]
fn exclusion_ignores_case() {
    let t = tokenizer().with_filter(&["The", "AND"]);
    assert_eq!(t.filter, vec!["the".to_string(), "and".to_string()]);
    assert!(!t.keep_token("THE"));
    assert!(!t.keep_token("and"));
    assert!(t.keep_token("then"));
    let r = t.get_normalized_word_frequencies("the cat and the dog");
    assert_eq!(r, vec![("cat".to_string(), 1), ("dog".to_string(), 1)]);
}

#[test]
fn max_words_limits_output() {
    let t = tokenizer().with_max_words(2);
    let r = t.get_normalized_word_frequencies("one two three four five six seven eight nine ten");
    assert_eq!(r.len(), 2);
}

#[test]
fn chinese_text_is_segmented() {
    let t = tokenizer().with_min_word_leng(2);
    let r = t.get_normalized_word_frequencies("我们中出了一个叛徒我们");
    assert!(r.iter().any(|(w, c)| w == "我们" && *c == 2));
}

#[test]
fn word_frequencies_merge_case() {
    let t = tokenizer().with_min_word_leng(1);
    assert_eq!(t.get_word_frequencies("Rust rust RUST"), vec![("rust".to_string(), 3)]);
    assert!(t.get_word_frequencies("").is_empty());
    let t = t.with_word("").with_word("锤子");
    assert_eq!(t.get_word_frequencies("Rust"), vec![("Rust".to_string(), 1)]);
}

#[test]
fn bad_pattern_gives_no_words() {
    let t = tokenizer().with_regex("(".to_string());
    assert!(t.get_normalized_word_frequencies("some words").is_empty());
}
