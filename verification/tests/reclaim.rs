use embed_anything_binding::embedding::{embed_text_batch, EmbeddingResult};
use embed_anything_binding::rerank::{rerank_documents, ScoredDocument};
use embed_anything_binding::reclaim::{
    free_batch_result, free_rerank_result, free_vector, BatchShape, Release, RerankShape,
    VectorShape,
};

#[test]
fn null_results_ask_for_nothing() {
    assert_eq!(free_vector(&None), vec![]);
    assert_eq!(free_batch_result(&None), vec![]);
    assert_eq!(free_rerank_result(&None), vec![]);
}

#[test]
fn batch_without_array_releases_only_its_outer_record() {
    assert_eq!(free_batch_result(&Some(BatchShape { vectors: None })), vec![Release::Outer]);
    assert_eq!(free_rerank_result(&Some(RerankShape { texts: None })), vec![Release::Outer]);
}

#[test]
fn empty_array_is_released_before_the_outer_record() {
    let plan = free_batch_result(&Some(BatchShape { vectors: Some(Vec::new()) }));
    assert_eq!(plan, vec![Release::Records { count: 0 }, Release::Outer]);
    let plan = free_rerank_result(&Some(RerankShape { texts: Some(Vec::new()) }));
    assert_eq!(plan, vec![Release::Records { count: 0 }, Release::Outer]);
}

#[test]
fn buffers_then_array_then_outer_record() {
    let vectors = vec![
        VectorShape { has_data: true, len: 384 },
        VectorShape { has_data: false, len: 0 },
        VectorShape { has_data: true, len: 0 },
        VectorShape { has_data: true, len: 7 },
    ];
    let plan = free_batch_result(&Some(BatchShape { vectors: Some(vectors) }));
    assert_eq!(
        plan,
        vec![
            Release::Values { position: 0, len: 384 },
            Release::Values { position: 2, len: 0 },
            Release::Values { position: 3, len: 7 },
            Release::Records { count: 4 },
            Release::Outer,
        ]
    );
}

#[test]
fn texts_then_array_then_outer_record() {
    let plan = free_rerank_result(&Some(RerankShape { texts: Some(vec![true, false, true]) }));
    assert_eq!(
        plan,
        vec![
            Release::Text { position: 0 },
            Release::Text { position: 2 },
            Release::Records { count: 3 },
            Release::Outer,
        ]
    );
}

#[test]
fn single_vector_releases_outer_record_then_buffer() {
    let plan = free_vector(&Some(VectorShape { has_data: true, len: 768 }));
    assert_eq!(plan, vec![Release::Outer, Release::Values { position: 0, len: 768 }]);
    let plan = free_vector(&Some(VectorShape { has_data: false, len: 0 }));
    assert_eq!(plan, vec![Release::Outer]);
}

#[test]
fn every_buffer_is_released_exactly_once() {
    let vectors: Vec<VectorShape> =
        (0..40).map(|i| VectorShape { has_data: i % 3 != 1, len: i * 2 }).collect();
    let plan = free_batch_result(&Some(BatchShape { vectors: Some(vectors.clone()) }));
    for (i, shape) in vectors.iter().enumerate() {
        let wanted = Release::Values { position: i, len: shape.len };
        let times = plan.iter().filter(|r| **r == wanted).count();
        assert_eq!(times, if shape.has_data { 1 } else { 0 });
    }
    let buffers = vectors.iter().filter(|s| s.has_data).count();
    assert_eq!(plan.len(), buffers + 2);
    assert_eq!(plan[plan.len() - 2], Release::Records { count: 40 });
    assert_eq!(plan[plan.len() - 1], Release::Outer);
}

#[test]
fn embedding_batch_is_taken_back_whole() {
    let answer = vec![
        EmbeddingResult::DenseVector(vec![0.5f32; 8]),
        EmbeddingResult::MultiVector(vec![vec![1.0f32; 8]; 3]),
        EmbeddingResult::DenseVector(vec![0.25f32; 8]),
    ];
    let batch = embed_text_batch(Some(answer)).unwrap();
    let shapes: Vec<VectorShape> = batch
        .vectors
        .as_ref()
        .unwrap()
        .iter()
        .map(|v| VectorShape { has_data: v.data.is_some(), len: v.len })
        .collect();
    let plan = free_batch_result(&Some(BatchShape { vectors: Some(shapes) }));
    assert_eq!(
        plan,
        vec![
            Release::Values { position: 0, len: 8 },
            Release::Values { position: 2, len: 8 },
            Release::Records { count: 3 },
            Release::Outer,
        ]
    );
}

#[test]
fn rerank_batch_is_taken_back_whole() {
    let group = vec![
        ScoredDocument { document: "x".to_string(), relevance_score: 0.5f32.to_bits() },
        ScoredDocument { document: "y".to_string(), relevance_score: 0.9f32.to_bits() },
    ];
    let asked = vec!["x".to_string(), "y".to_string()];
    let batch = rerank_documents(&asked, Some(vec![group])).unwrap();
    let texts: Vec<bool> = batch.results.as_ref().unwrap().iter().map(|_| true).collect();
    let plan = free_rerank_result(&Some(RerankShape { texts: Some(texts) }));
    assert_eq!(
        plan,
        vec![
            Release::Text { position: 0 },
            Release::Text { position: 1 },
            Release::Records { count: 2 },
            Release::Outer,
        ]
    );
    let empty = rerank_documents(&asked, Some(Vec::new())).unwrap();
    assert_eq!(empty.count, 0);
    let texts: Option<Vec<bool>> = empty.results.as_ref().map(|r| r.iter().map(|_| true).collect());
    assert_eq!(free_rerank_result(&Some(RerankShape { texts })), vec![Release::Outer]);
}
