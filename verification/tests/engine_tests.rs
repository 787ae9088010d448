//! End-to-end scenarios and runtime instances of the corpus invariants.

use ngrammatic::corpus::Corpus;
use ngrammatic::grams::NgramConfig;
use ngrammatic::search::Score;
use ngrammatic::BuildError;

fn chars_of(s: &str) -> Vec<u32> {
    s.chars().map(|c| c as u32).collect()
}

fn cfg(arity: usize, pad_left: &str, pad_right: &str, lowercase: bool) -> NgramConfig {
    NgramConfig { arity, pad_left: chars_of(pad_left), pad_right: chars_of(pad_right), lowercase }
}

fn animals() -> Vec<String> {
    ["cat", "dog", "bird", "fish", "lion"].iter().map(|s| s.to_string()).collect()
}

#[test]
fn animal_bigram_corpus() {
    let c = Corpus::from(animals(), cfg(2, " ", " ", true)).unwrap();
    assert_eq!(c.number_of_keys(), 5);
    // every bigram of the five padded names, deduplicated
    assert_eq!(c.number_of_ngrams(), 23);
    assert_eq!(c.number_of_ngrams_from_key_id(0), 4);
    let hits = c.search("caT", Score::new(3, 10), 3);
    assert_eq!(hits.len(), 1);
    assert_eq!(hits[0].key(), "cat".to_string());
    let s = hits[0].score();
    assert_eq!(s.num, s.den);
}

#[test]
fn empty_input_is_rejected() {
    let r = Corpus::from(Vec::new(), cfg(2, " ", " ", false));
    assert!(matches!(r, Err(BuildError::EmptyCorpus)));
}

#[test]
fn gramless_input_is_rejected() {
    // a nonempty key list whose keys are all too short for the arity
    // yields no n-gram, which is rejected the same way
    let r = Corpus::from(vec!["".to_string()], cfg(2, "", "", false));
    assert!(matches!(r, Err(BuildError::EmptyCorpus)));
    let r = Corpus::from(vec!["a".to_string(), "b".to_string()], cfg(3, "", "", false));
    assert!(matches!(r, Err(BuildError::EmptyCorpus)));
}

#[test]
fn arity_out_of_band_is_rejected() {
    let r = Corpus::from(animals(), cfg(0, "", "", false));
    assert!(matches!(r, Err(BuildError::ArityOutOfRange)));
    let r = Corpus::from(animals(), cfg(9, "", "", false));
    assert!(matches!(r, Err(BuildError::ArityOutOfRange)));
}

#[test]
fn degree_sums_match_edge_count() {
    let c = Corpus::from(animals(), cfg(2, " ", " ", true)).unwrap();
    let edges = c.graph().number_of_edges();
    let mut src_sum = 0usize;
    for kid in 0..c.number_of_keys() {
        src_sum += c.number_of_ngrams_from_key_id(kid);
    }
    let mut dst_sum = 0usize;
    for gid in 0..c.number_of_ngrams() {
        dst_sum += c.number_of_keys_from_ngram_id(gid);
    }
    assert_eq!(src_sum, edges);
    assert_eq!(dst_sum, edges);
}

#[test]
fn neighbor_lists_strictly_increase() {
    let c = Corpus::from(animals(), cfg(2, " ", " ", true)).unwrap();
    for kid in 0..c.number_of_keys() {
        let gids = c.ngram_ids_from_key(kid);
        for w in gids.windows(2) {
            assert!(w[0] < w[1]);
        }
    }
    for gid in 0..c.number_of_ngrams() {
        let kids = c.key_ids_from_ngram_id(gid);
        for w in kids.windows(2) {
            assert!(w[0] < w[1]);
        }
    }
}

#[test]
fn ngram_id_round_trip() {
    let c = Corpus::from(animals(), cfg(2, " ", " ", true)).unwrap();
    for gid in 0..c.number_of_ngrams() {
        let g = c.ngram_from_id(gid);
        assert_eq!(c.ngram_id_from_ngram(&g), Some(gid));
    }
    assert_eq!(c.ngram_id_from_ngram(&chars_of("zz")), None);
}

#[test]
fn edge_ids_locate_their_key_and_gram() {
    let c = Corpus::from(animals(), cfg(2, " ", " ", true)).unwrap();
    let g = c.graph();
    for e in 0..g.number_of_edges() {
        let kid = g.src_id_from_edge_id(e);
        assert!(g.src_comulative_outbound_degree(kid) <= e);
        assert!(e < g.src_comulative_outbound_degree(kid + 1));
        let gid = g.dst_id_from_edge_id(e);
        assert!(g.dst_comulative_inbound_degree(gid) <= e);
        assert!(e < g.dst_comulative_inbound_degree(gid + 1));
    }
}

#[test]
fn weights_are_positive_and_aligned() {
    let c = Corpus::from(animals(), cfg(2, " ", " ", true)).unwrap();
    for kid in 0..c.number_of_keys() {
        let ws = c.ngram_cooccurrences_from_key(kid);
        assert_eq!(ws.len(), c.number_of_ngrams_from_key_id(kid));
        for w in ws {
            assert!(w >= 1);
        }
    }
}

#[test]
fn self_similarity_returns_the_key() {
    // no padding and no case folding: the pipeline is an identity
    let keys = vec!["abc".to_string(), "bcd".to_string(), "cde".to_string()];
    let c = Corpus::from(keys.clone(), cfg(2, "", "", false)).unwrap();
    for key in keys.iter() {
        let hits = c.search(key, Score::new(1, 1), 1);
        assert_eq!(hits.len(), 1);
        assert_eq!(hits[0].key(), key.clone());
        let s = hits[0].score();
        assert_eq!(s.num, s.den);
    }
}

#[test]
fn sequential_and_parallel_builds_agree() {
    let a = Corpus::from(animals(), cfg(2, " ", " ", true)).unwrap();
    let b = Corpus::par_from(animals(), cfg(2, " ", " ", true)).unwrap();
    assert_eq!(a.number_of_keys(), b.number_of_keys());
    assert_eq!(a.number_of_ngrams(), b.number_of_ngrams());
    for gid in 0..a.number_of_ngrams() {
        assert_eq!(a.ngram_from_id(gid), b.ngram_from_id(gid));
        assert_eq!(a.key_ids_from_ngram_id(gid), b.key_ids_from_ngram_id(gid));
    }
    for kid in 0..a.number_of_keys() {
        assert_eq!(a.ngram_ids_from_key(kid), b.ngram_ids_from_key(kid));
        assert_eq!(a.ngram_cooccurrences_from_key(kid), b.ngram_cooccurrences_from_key(kid));
    }
}

#[test]
fn two_letter_corpus_layout() {
    // keys "ab" and "ba" over unigrams: the table is [a, b] and every
    // key touches both grams once
    let c = Corpus::from(vec!["ab".to_string(), "ba".to_string()], cfg(1, "", "", false))
        .unwrap();
    assert_eq!(c.number_of_ngrams(), 2);
    assert_eq!(c.ngram_from_id(0), chars_of("a"));
    assert_eq!(c.ngram_from_id(1), chars_of("b"));
    for kid in 0..2 {
        assert_eq!(c.ngram_ids_from_key(kid), vec![0, 1]);
        assert_eq!(c.ngram_cooccurrences_from_key(kid), vec![1, 1]);
    }
    for gid in 0..2 {
        assert_eq!(c.key_ids_from_ngram_id(gid), vec![0, 1]);
    }
    let g = c.graph();
    assert_eq!(g.number_of_edges(), 4);
    assert_eq!(g.src_id_from_edge_id(0), 0);
    assert_eq!(g.src_id_from_edge_id(1), 0);
    assert_eq!(g.src_id_from_edge_id(2), 1);
    assert_eq!(g.src_id_from_edge_id(3), 1);
    let degrees = g.degrees();
    assert_eq!(degrees, vec![2, 2, 2, 2]);
}

#[test]
fn repeated_grams_are_counted() {
    // "aab" holds the unigram a twice; the weight records it
    let c = Corpus::from(vec!["aab".to_string()], cfg(1, "", "", false)).unwrap();
    assert_eq!(c.number_of_ngrams(), 2);
    assert_eq!(c.ngram_cooccurrences_from_key(0), vec![2, 1]);
    let pairs = c.ngrams_and_cooccurrences_from_key(0);
    assert_eq!(pairs.len(), 2);
    assert_eq!(pairs[0].0, chars_of("a"));
    assert_eq!(pairs[0].1, 2);
    // searching "aa" scores min-weight overlap 2 of 2 + 3 - 2 grams
    let hits = c.search("aa", Score::new(1, 2), 10);
    assert_eq!(hits.len(), 1);
    let s = hits[0].score();
    assert_eq!(s.num, 2);
    assert_eq!(s.den, 3);
}

#[test]
fn scores_order_descending_with_ties_by_key_id() {
    let keys = vec!["ax".to_string(), "xa".to_string(), "ab".to_string()];
    let c = Corpus::from(keys, cfg(1, "", "", false)).unwrap();
    // query "a" overlaps every key equally except none dominates
    let hits = c.search("ax", Score::new(1, 10), 10);
    assert!(hits.len() >= 2);
    for w in hits.windows(2) {
        let x = w[0].score();
        let y = w[1].score();
        assert!((x.num as u128) * (y.den as u128) >= (y.num as u128) * (x.den as u128));
    }
    // the two keys with identical gram multisets tie at score one
    assert_eq!(hits[0].key(), "ax".to_string());
    assert_eq!(hits[1].key(), "xa".to_string());
}
