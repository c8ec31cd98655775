use embed_anything_binding::rerank::{
    place_documents, rank_documents, rerank_documents, rerank_request, RerankResult,
    ScoredDocument, RETRIEVAL_DEPTH,
};
use embed_anything_binding::score::score_rank;

fn doc(text: &str, score: f32) -> ScoredDocument {
    ScoredDocument { document: text.to_string(), relevance_score: score.to_bits() }
}

fn asked(texts: &[&str]) -> Vec<String> {
    texts.iter().map(|t| t.to_string()).collect()
}

fn texts(records: &[RerankResult]) -> Vec<String> {
    records.iter().map(|r| r.text.clone()).collect()
}

fn indices(records: &[RerankResult]) -> Vec<usize> {
    records.iter().map(|r| r.index).collect()
}

#[test]
fn highest_score_comes_first() {
    let groups = vec![vec![doc("x", 0.5), doc("y", 0.9), doc("z", 0.1)]];
    let batch = rerank_documents(&asked(&["x", "y", "z"]), Some(groups)).unwrap();
    assert_eq!(batch.count, 3);
    let records = batch.results.unwrap();
    assert_eq!(texts(&records), vec!["y", "x", "z"]);
    assert_eq!(indices(&records), vec![1, 0, 2]);
    assert_eq!(f32::from_bits(records[0].score), 0.9);
    assert_eq!(f32::from_bits(records[1].score), 0.5);
    assert_eq!(f32::from_bits(records[2].score), 0.1);
}

#[test]
fn request_has_one_query_and_the_fixed_depth() {
    let documents = vec![Some(b"x".to_vec()), None, Some(b"z".to_vec())];
    let request = rerank_request(&Some(b"q".to_vec()), &documents);
    assert_eq!(request.queries, vec!["q".to_string()]);
    assert_eq!(request.documents, vec!["x".to_string(), String::new(), "z".to_string()]);
    assert_eq!(request.depth, 32);
    assert_eq!(RETRIEVAL_DEPTH, 32);
    let many: Vec<Option<Vec<u8>>> = (0..100).map(|_| Some(b"d".to_vec())).collect();
    assert_eq!(rerank_request(&None, &many).depth, 32);
    assert_eq!(rerank_request(&None, &many).queries, vec![String::new()]);
}

#[test]
fn ranking_is_a_permutation_with_scores_that_never_increase() {
    let scores = [0.3f32, -1.5, 7.25, 0.0, 0.3, 100.0, -0.0, 2.0, 0.3, -7.0];
    let group: Vec<ScoredDocument> =
        scores.iter().enumerate().map(|(i, s)| doc(&format!("d{}", i), *s)).collect();
    let records = rank_documents(&group);
    assert_eq!(records.len(), scores.len());
    let mut seen = vec![false; scores.len()];
    for record in &records {
        assert!(record.index < scores.len());
        assert!(!seen[record.index]);
        seen[record.index] = true;
        assert_eq!(record.score, scores[record.index].to_bits());
        assert_eq!(record.text, format!("d{}", record.index));
    }
    for pair in records.windows(2) {
        assert!(f32::from_bits(pair[0].score) >= f32::from_bits(pair[1].score));
    }
    assert_eq!(indices(&records), vec![5, 2, 7, 0, 4, 8, 3, 6, 1, 9]);
}

#[test]
fn equal_scores_keep_the_order_of_the_answer() {
    let group = vec![doc("a", 1.0), doc("b", 2.0), doc("c", 1.0), doc("d", 2.0), doc("e", 1.0)];
    let records = rank_documents(&group);
    assert_eq!(texts(&records), vec!["b", "d", "a", "c", "e"]);
    assert_eq!(indices(&records), vec![1, 3, 0, 2, 4]);
}

#[test]
fn both_zeros_rank_alike() {
    let group = vec![doc("neg", -0.0), doc("pos", 0.0), doc("neg2", -0.0)];
    let records = rank_documents(&group);
    assert_eq!(indices(&records), vec![0, 1, 2]);
}

#[test]
fn score_that_is_no_number_ranks_last() {
    let group = vec![doc("nan", f32::NAN), doc("low", f32::NEG_INFINITY), doc("high", 1.0)];
    let records = rank_documents(&group);
    assert_eq!(texts(&records), vec!["high", "low", "nan"]);
    assert_eq!(indices(&records), vec![2, 1, 0]);
}

#[test]
fn already_ranked_answer_stays_as_it_is() {
    let group = vec![doc("a", 3.0), doc("b", 2.0), doc("c", 1.0)];
    let records = rank_documents(&group);
    assert_eq!(indices(&records), vec![0, 1, 2]);
}

#[test]
fn only_the_first_group_is_used() {
    let groups = vec![vec![doc("a", 0.1), doc("b", 0.2)], vec![doc("c", 0.9)]];
    let batch = rerank_documents(&asked(&["a", "b"]), Some(groups)).unwrap();
    assert_eq!(batch.count, 2);
    let records = batch.results.unwrap();
    assert_eq!(texts(&records), vec!["b", "a"]);
    assert_eq!(indices(&records), vec![1, 0]);
}

#[test]
fn empty_answer_gives_an_empty_batch_without_array() {
    let batch = rerank_documents(&asked(&["a"]), Some(Vec::new())).unwrap();
    assert_eq!(batch.count, 0);
    assert!(batch.results.is_none());
    let batch = rerank_documents(&Vec::new(), Some(vec![Vec::new()])).unwrap();
    assert_eq!(batch.count, 0);
    assert!(batch.results.is_none());
}

#[test]
fn failed_rerank_gives_no_batch() {
    assert!(rerank_documents(&asked(&["a", "b"]), None).is_none());
}

#[test]
fn keys_order_scores_as_numbers() {
    let values = [
        f32::NEG_INFINITY,
        f32::MIN,
        -1.0e10,
        -2.5,
        -1.0,
        -f32::MIN_POSITIVE,
        -1.0e-45,
        -0.0,
        0.0,
        1.0e-45,
        f32::MIN_POSITIVE,
        0.1,
        0.5,
        1.0,
        1.0000001,
        3.5,
        1.0e10,
        f32::MAX,
        f32::INFINITY,
    ];
    for a in values {
        for b in values {
            let ka = score_rank(a.to_bits());
            let kb = score_rank(b.to_bits());
            assert_eq!(ka < kb, a < b);
            assert_eq!(ka == kb, a == b);
            assert_eq!(ka > kb, a > b);
        }
    }
}

#[test]
fn keys_have_their_exact_values() {
    assert_eq!(score_rank(0.0f32.to_bits()), 0);
    assert_eq!(score_rank((-0.0f32).to_bits()), 0);
    assert_eq!(score_rank(1.0f32.to_bits()), 0x3f80_0000);
    assert_eq!(score_rank((-1.0f32).to_bits()), -0x3f80_0000);
    assert_eq!(score_rank(f32::INFINITY.to_bits()), 0x7f80_0000);
    assert_eq!(score_rank(f32::NEG_INFINITY.to_bits()), -0x7f80_0000);
    assert_eq!(score_rank(f32::NAN.to_bits()), -0x7f80_0001);
    assert_eq!(score_rank(0x7fc0_0000), -0x7f80_0001);
    assert_eq!(score_rank(0xffff_ffff), -0x7f80_0001);
    assert_eq!(score_rank(0x7f80_0001), -0x7f80_0001);
}

#[test]
fn answer_in_ranked_order_points_at_the_places_asked() {
    let groups = vec![vec![doc("y", 0.9), doc("x", 0.5), doc("z", 0.1)]];
    let batch = rerank_documents(&asked(&["x", "y", "z"]), Some(groups)).unwrap();
    assert_eq!(batch.count, 3);
    let records = batch.results.unwrap();
    assert_eq!(texts(&records), vec!["y", "x", "z"]);
    assert_eq!(indices(&records), vec![1, 0, 2]);
}

#[test]
fn answer_in_any_order_points_at_the_places_asked() {
    let list = asked(&["alpha", "beta", "gamma", "delta", "epsilon"]);
    let groups = vec![vec![
        doc("delta", 0.2),
        doc("alpha", 0.7),
        doc("epsilon", 0.7),
        doc("gamma", -1.0),
        doc("beta", 3.5),
    ]];
    let batch = rerank_documents(&list, Some(groups)).unwrap();
    let records = batch.results.unwrap();
    assert_eq!(texts(&records), vec!["beta", "alpha", "epsilon", "delta", "gamma"]);
    assert_eq!(indices(&records), vec![1, 0, 4, 3, 2]);
    for record in &records {
        assert_eq!(list[record.index], record.text);
    }
}

#[test]
fn equal_texts_get_their_places_in_order() {
    let list = asked(&["same", "other", "same", "same"]);
    let groups = vec![vec![doc("same", 0.1), doc("same", 0.9), doc("other", 0.5), doc("same", 0.9)]];
    let batch = rerank_documents(&list, Some(groups)).unwrap();
    let records = batch.results.unwrap();
    assert_eq!(texts(&records), vec!["same", "same", "other", "same"]);
    assert_eq!(indices(&records), vec![2, 3, 1, 0]);
    let places = place_documents(&list, &vec![doc("same", 0.0), doc("other", 0.0), doc("same", 0.0)]);
    assert_eq!(places, Some(vec![0, 1, 2]));
}

#[test]
fn fewer_documents_than_asked_are_an_answer() {
    let list = asked(&["a", "b", "c", "d"]);
    let groups = vec![vec![doc("d", 0.3), doc("b", 0.8)]];
    let batch = rerank_documents(&list, Some(groups)).unwrap();
    assert_eq!(batch.count, 2);
    let records = batch.results.unwrap();
    assert_eq!(texts(&records), vec!["b", "d"]);
    assert_eq!(indices(&records), vec![1, 3]);
}

#[test]
fn document_that_was_not_asked_gives_no_batch() {
    let list = asked(&["a", "b"]);
    assert!(rerank_documents(&list, Some(vec![vec![doc("a", 0.5), doc("c", 0.9)]])).is_none());
    assert!(rerank_documents(&list, Some(vec![vec![doc("a", 0.5), doc("a", 0.9)]])).is_none());
    assert!(rerank_documents(&Vec::new(), Some(vec![vec![doc("a", 0.5)]])).is_none());
    assert_eq!(place_documents(&list, &vec![doc("b", 0.0), doc("b", 0.0)]), None);
}

#[test]
fn request_and_answer_go_together() {
    let documents = vec![Some(b"x".to_vec()), None, Some(vec![b'z', 0xff])];
    let request = rerank_request(&Some(b"q".to_vec()), &documents);
    let groups = vec![vec![doc("z\u{fffd}", 0.4), doc("", 0.6), doc("x", 0.5)]];
    let batch = rerank_documents(&request.documents, Some(groups)).unwrap();
    let records = batch.results.unwrap();
    assert_eq!(texts(&records), vec!["", "x", "z\u{fffd}"]);
    assert_eq!(indices(&records), vec![1, 0, 2]);
}
