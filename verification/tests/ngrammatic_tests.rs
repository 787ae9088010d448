//! Gram extraction, corpus and search behavior on small inputs.

use ngrammatic::corpus::Corpus;
use ngrammatic::grams::{counts, NgramConfig};
use ngrammatic::search::{Score, SearchResult, SearchResultsHeap};

fn chars_of(s: &str) -> Vec<u32> {
    s.chars().map(|c| c as u32).collect()
}

fn cfg(arity: usize, pad_left: &str, pad_right: &str, lowercase: bool) -> NgramConfig {
    NgramConfig { arity, pad_left: chars_of(pad_left), pad_right: chars_of(pad_right), lowercase }
}

fn has_gram(ps: &[(Vec<u32>, usize)], g: &str) -> bool {
    let want = chars_of(g);
    ps.iter().any(|p| p.0 == want)
}

#[test]
fn arity_clamp_empty_string_nopad() {
    let ngram = counts(&cfg(1, "", "", false), "");
    assert!(ngram.is_empty());
}

#[test]
fn arity_clamp_empty_string_padded() {
    let ngram = counts(&cfg(2, "--", "++", false), "");
    assert!(has_gram(&ngram, "--"));
    assert!(has_gram(&ngram, "-+"));
    assert!(has_gram(&ngram, "++"));
}

#[test]
fn empty_string_nopad() {
    let ngram = counts(&cfg(2, "", "", false), "");
    assert!(ngram.is_empty());
}

#[test]
fn empty_string_autopad() {
    let ngram = counts(&cfg(2, " ", " ", false), "");
    assert!(has_gram(&ngram, "  "));
}

#[test]
fn empty_string_strpad() {
    let ngram = counts(&cfg(2, "--", "++", false), "");
    assert!(has_gram(&ngram, "--"));
    assert!(has_gram(&ngram, "-+"));
    assert!(has_gram(&ngram, "++"));
}

#[test]
fn short_string_nopad() {
    let ngram = counts(&cfg(2, "", "", false), "ab");
    assert!(has_gram(&ngram, "ab"));
}

#[test]
fn short_string_autopad() {
    let ngram = counts(&cfg(2, " ", " ", false), "ab");
    assert!(has_gram(&ngram, " a"));
    assert!(has_gram(&ngram, "ab"));
    assert!(has_gram(&ngram, "b "));
}

#[test]
fn short_string_strpad() {
    let ngram = counts(&cfg(2, "--", "++", false), "ab");
    assert!(has_gram(&ngram, "--"));
    assert!(has_gram(&ngram, "-a"));
    assert!(has_gram(&ngram, "ab"));
    assert!(has_gram(&ngram, "b+"));
    assert!(has_gram(&ngram, "++"));
}

#[test]
fn similarity_identical() {
    let c = Corpus::from(vec!["ab".to_string()], cfg(2, " ", " ", false)).unwrap();
    let hits = c.search("ab", Score::new(0, 1), 1);
    assert_eq!(hits.len(), 1);
    let s = hits[0].score();
    // the score is exactly one
    assert_eq!(s.num, s.den);
}

#[test]
fn similarity_completelydifferent() {
    let c = Corpus::from(vec!["ab".to_string()], cfg(2, " ", " ", false)).unwrap();
    // no shared gram: nothing scores above zero
    let hits = c.search("cd", Score::new(0, 1), 1);
    assert_eq!(hits.len(), 0);
}

#[test]
fn corpus_add_text_before_setting_arity() {
    let c = Corpus::from(
        vec!["ab".to_string(), "ba".to_string()],
        cfg(2, " ", " ", false),
    )
    .unwrap();
    println!("{:?}", c.number_of_keys());
}

#[test]
fn corpus_set_padding_after_adding_text() {
    let c = Corpus::from(vec!["ab".to_string(), "ba".to_string()], cfg(2, "", "", false))
        .unwrap();
    println!("{:?}", c.number_of_keys());
}

#[test]
fn corpus_add_multiple() {
    let c = Corpus::from(
        vec!["ab".to_string(), "ba".to_string()],
        cfg(2, " ", " ", false),
    )
    .unwrap();
    assert_eq!(c.number_of_keys() == 0, false);
    assert_eq!(c.key("ab"), Some("ab".to_string()));
    assert_eq!(c.key("ba"), Some("ba".to_string()));
    assert_eq!(c.key("zabba"), None);
}

#[test]
fn corpus_search() {
    let c = Corpus::from(
        vec!["ab".to_string(), "ba".to_string(), "cd".to_string()],
        cfg(1, "", "", false),
    )
    .unwrap();
    assert_eq!(c.search("ce", Score::new(3, 10), 10).len(), 1);
    assert_eq!(c.search("ec", Score::new(3, 10), 10).len(), 1);
    assert_eq!(c.search("b", Score::new(1, 2), 10).len(), 2);
}

#[test]
fn corpus_case_insensitive_corpus_search() {
    let c = Corpus::from(
        vec!["Ab".to_string(), "Ba".to_string(), "Cd".to_string()],
        cfg(1, "", "", true),
    )
    .unwrap();
    assert_eq!(c.search("ce", Score::new(3, 10), 10).len(), 1);
    assert_eq!(c.search("ec", Score::new(3, 10), 10).len(), 1);
    assert_eq!(c.search("b", Score::new(1, 2), 10).len(), 2);
}

#[test]
fn corpus_case_insensitive_corpus_search_terms() {
    let c = Corpus::from(
        vec!["Ab".to_string(), "Ba".to_string(), "Cd".to_string()],
        cfg(1, "", "", true),
    )
    .unwrap();
    assert_eq!(c.search("cE", Score::new(3, 10), 10).len(), 1);
    assert_eq!(c.search("eC", Score::new(3, 10), 10).len(), 1);
    assert_eq!(c.search("b", Score::new(1, 2), 10).len(), 2);
}

#[test]
fn corpus_search_emoji() {
    let c = Corpus::from(
        vec!["\u{1f60f}\u{1f346}".to_string(), "ba".to_string(), "cd".to_string()],
        cfg(1, "", "", false),
    )
    .unwrap();
    assert_eq!(c.search("ac", Score::new(3, 10), 10).len(), 2);
    assert_eq!(c.search("\u{1f346}d", Score::new(3, 10), 10).len(), 2);
}

#[test]
fn corpus_search_small_word() {
    // a single-space pad leaves "ab" short of five grams, so no n-gram is
    // extracted from any key and the build is rejected; there is nothing
    // for "a" to match
    let r = Corpus::from(vec!["ab".to_string()], cfg(5, " ", " ", true));
    assert!(matches!(r, Err(ngrammatic::BuildError::EmptyCorpus)));
}

#[test]
fn corpus_search_empty_string() {
    let c = Corpus::from(vec!["a".to_string()], cfg(3, " ", " ", true)).unwrap();
    assert!(c.search("", Score::new(0, 1), 10).is_empty());
}

#[test]
fn test_search_result() {
    let key = "key";
    let score = Score::new(1, 2);
    let search_result = SearchResult::new(key.to_string(), score);

    assert_eq!(search_result.key(), key.to_string());
    assert_eq!(search_result.score(), score);
}

#[test]
fn test_search_results_heap() {
    let mut search_results_heap = SearchResultsHeap::new(3);

    let search_result1 = SearchResult::new("key1".to_string(), Score::new(1, 10));
    let search_result2 = SearchResult::new("key2".to_string(), Score::new(2, 10));
    let search_result3 = SearchResult::new("key3".to_string(), Score::new(3, 10));
    let search_result4 = SearchResult::new("key4".to_string(), Score::new(4, 10));
    let search_result5 = SearchResult::new("key5".to_string(), Score::new(5, 10));

    search_results_heap.push(search_result1);
    search_results_heap.push(search_result2);
    search_results_heap.push(search_result3);
    search_results_heap.push(search_result4);
    search_results_heap.push(search_result5);

    let sorted_search_results = search_results_heap.into_sorted_vec();

    assert_eq!(sorted_search_results.len(), 3);
    assert_eq!(sorted_search_results[0].key(), "key5".to_string());
    assert_eq!(sorted_search_results[1].key(), "key4".to_string());
    assert_eq!(sorted_search_results[2].key(), "key3".to_string());
}

#[test]
fn test_weights() {
    let weights: Vec<Vec<usize>> = vec![
        vec![1, 2, 3, 4, 5],
        vec![0, 0, 0, 0, 0],
        vec![1, 1, 1, 1, 1],
        vec![1, 0, 3, 2, 2],
        vec![0],
        vec![],
    ];

    let mut writer = ngrammatic::bitstream::WeightsBuilder::new();
    for row in weights.iter() {
        writer.push(row).unwrap();
    }

    let reader = writer.build();

    assert_eq!(weights.len(), reader.num_nodes());
    assert_eq!(
        weights.iter().map(|w| w.len()).sum::<usize>(),
        reader.num_arcs() as usize
    );

    // test weights iter
    let mut iter = reader.weights();
    for row in weights.iter() {
        for weight in row.iter() {
            assert_eq!(Some(*weight), iter.next());
        }
    }

    assert_eq!(None, iter.next());

    // test random access iter
    for (i, row) in weights.iter().enumerate() {
        let mut iter = reader.labels(i);
        for weight in row.iter() {
            assert_eq!(Some(*weight), iter.next());
        }
        assert_eq!(None, iter.next());
    }

    // test random access degrees
    for (i, row) in weights.iter().enumerate() {
        assert_eq!(row.len(), reader.outdegree(i));
    }

    // test sequential iter
    let mut iter = reader.iter();
    for (i, row) in weights.iter().enumerate() {
        let (node_id, decoded) = iter.next().unwrap();
        assert_eq!(node_id, i);
        assert_eq!(row, &decoded);
    }
}
