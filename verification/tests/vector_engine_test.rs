use instant_distance::Builder;
use instant_distance::HnswMap;
use instant_distance::Point;
use instant_distance::Search;
use rust_vector_engine::models::errors::ErrorKind;
use rust_vector_engine::models::errors::VectorEngineError;
use rust_vector_engine::models::SearchStep;
use rust_vector_engine::models::VectorEngine;

const TEST_DIM: usize = 3;

#[derive(Clone)]
struct MyPoint(Vec<f32>);

impl Point for MyPoint {
    fn distance(&self, other: &Self) -> f32 {
        let dot_product: f32 = self.0.iter().zip(&other.0).map(|(a, b)| a * b).sum();
        let norm_a: f32 = self.0.iter().map(|a| a.powi(2)).sum::<f32>().sqrt();
        let norm_b: f32 = other.0.iter().map(|b| b.powi(2)).sum::<f32>().sqrt();
        if norm_a == 0.0 || norm_b == 0.0 {
            return 2.0;
        }
        1.0 - (dot_product / (norm_a * norm_b))
    }
}

fn bits(v: &[f32]) -> Vec<u32> {
    v.iter().map(|x| x.to_bits()).collect()
}

fn floats(v: &[u32]) -> Vec<f32> {
    v.iter().map(|x| f32::from_bits(*x)).collect()
}

/// The engine together with the nearest-neighbour index that a caller keeps
/// beside it.
struct Harness {
    engine: VectorEngine,
    index: HnswMap<MyPoint, u64>,
}

impl Harness {
    fn new(dimension: usize) -> Harness {
        let engine = VectorEngine::new(dimension);
        let index = build(&engine);
        Harness { engine, index }
    }

    fn add_document(&mut self, id: u64, vector: Vec<f32>) -> Result<(), VectorEngineError> {
        self.engine.add_document(id, bits(&vector))?;
        self.index = build(&self.engine);
        Ok(())
    }

    fn update_document(&mut self, id: &u64, vector: Vec<f32>) -> Result<(), VectorEngineError> {
        self.engine.update_document(id, bits(&vector))?;
        self.index = build(&self.engine);
        Ok(())
    }

    fn delete_document(&mut self, id: &u64) -> Result<(), VectorEngineError> {
        self.engine.delete_document(id)?;
        self.index = build(&self.engine);
        Ok(())
    }

    fn search(&mut self, query: &Vec<f32>, top_k: usize) -> Result<Vec<(u64, f32)>, VectorEngineError> {
        let index = &self.index;
        let results = self.engine.search(&bits(query), top_k, |k| {
            let mut search = Search::default();
            index
                .search(&MyPoint(query.clone()), &mut search)
                .take(k)
                .map(|item| (*item.value, item.distance.to_bits()))
                .collect()
        })?;
        Ok(results.iter().map(|(id, d)| (*id, f32::from_bits(*d))).collect())
    }
}

fn build(engine: &VectorEngine) -> HnswMap<MyPoint, u64> {
    let documents = engine.index_points();
    let points: Vec<MyPoint> = documents.iter().map(|d| MyPoint(floats(&d.vector))).collect();
    let values: Vec<u64> = documents.iter().map(|d| d.id).collect();
    Builder::default().build(points, values)
}

#[test]
fn test_vector_engine_creation() {
    let engine = VectorEngine::new(TEST_DIM);
    assert_eq!(engine.dimension(), TEST_DIM);
    assert_eq!(engine.document_count(), 0);
}

#[test]
fn test_creation_with_large_dimension() {
    let engine = VectorEngine::new(1536);
    assert_eq!(engine.dimension(), 1536);
    assert_eq!(engine.document_count(), 0);
    assert_eq!(engine.query_cache_len(), 0);
    assert_eq!(engine.query_cache_stats().hits, 0);
    assert_eq!(engine.query_cache_stats().misses, 0);
}

#[test]
fn test_add_document_success() {
    let mut engine = Harness::new(TEST_DIM);
    let res = engine.add_document(1, vec![0.1, 0.2, 0.3]);
    assert!(res.is_ok());
    assert_eq!(engine.engine.document_count(), 1);
}

#[test]
fn test_add_document_dimension_mismatch() {
    let mut engine = Harness::new(TEST_DIM);
    let res = engine.add_document(1, vec![0.1, 0.2]);
    assert!(res.is_err());
    assert!(matches!(res.unwrap_err(), VectorEngineError::DimensionMismatch(_)));
    assert_eq!(engine.engine.document_count(), 0);
}

#[test]
fn test_search_on_empty_engine() {
    let mut engine = Harness::new(TEST_DIM);
    let query_vector = vec![0.1, 0.2, 0.3];
    let results = engine.search(&query_vector, 3).unwrap();
    assert!(results.is_empty());
}

#[test]
fn test_search_with_k_larger_than_docs() {
    let mut engine = Harness::new(TEST_DIM);
    engine.add_document(1, vec![1.0, 0.1, 0.2]).unwrap();
    engine.add_document(2, vec![0.1, 1.0, 0.3]).unwrap();

    let query_vector = vec![1.0, 0.0, 0.1];
    let results = engine.search(&query_vector, 3).unwrap();

    assert_eq!(results.len(), 2);
    assert_eq!(results[0].0, 1);
    assert!(results[0].1 <= results[1].1);
}

#[test]
fn test_search_miss_and_hit() {
    let mut engine = Harness::new(TEST_DIM);
    engine.add_document(1, vec![0.1, 0.2, 0.3]).unwrap();
    engine.add_document(2, vec![0.9, 0.8, 0.7]).unwrap();
    let query_vector = vec![0.8, 0.8, 0.8];

    assert_eq!(engine.engine.query_cache_len(), 0);

    let first_result = engine.search(&query_vector, 1).unwrap();
    assert_eq!(engine.engine.query_cache_stats().misses, 1);
    assert_eq!(engine.engine.query_cache_len(), 1);
    assert_eq!(first_result[0].0, 2);

    let second_result = engine.search(&query_vector, 1).unwrap();
    assert_eq!(engine.engine.query_cache_stats().hits, 1);
    assert_eq!(first_result, second_result);
}

#[test]
fn test_search_after_cache_invalidation() {
    let mut engine = Harness::new(TEST_DIM);

    let query_vector = vec![1.0, 0.0, 0.0];
    let initial_doc_id = 1;
    engine.add_document(initial_doc_id, vec![0.0, 1.0, 0.0]).unwrap();

    let first_results = engine.search(&query_vector, 1).unwrap();
    assert_eq!(first_results[0].0, initial_doc_id);

    let closer_doc_id = 2;
    engine.add_document(closer_doc_id, vec![0.9, 0.1, 0.1]).unwrap();

    let second_results = engine.search(&query_vector, 1).unwrap();

    assert_eq!(second_results[0].0, closer_doc_id);
}

#[test]
fn test_cache_invalidation_on_add() {
    let mut engine = Harness::new(TEST_DIM);
    engine.add_document(1, vec![0.1, 0.2, 0.3]).unwrap();
    engine.add_document(2, vec![0.9, 0.8, 0.7]).unwrap();
    let query_vector = vec![0.8, 0.8, 0.8];
    assert_eq!(engine.search(&query_vector, 1).unwrap()[0].0, 2);
    assert_eq!(engine.search(&query_vector, 1).unwrap()[0].0, 2);
    assert_eq!(engine.engine.query_cache_len(), 1);

    engine.add_document(3, vec![0.85, 0.85, 0.85]).unwrap();
    assert_eq!(engine.engine.query_cache_len(), 0);
    assert_eq!(engine.engine.query_cache_stats().hits, 0);
    assert_eq!(engine.engine.query_cache_stats().misses, 0);
    assert_eq!(engine.search(&query_vector, 1).unwrap()[0].0, 3);
}

#[test]
fn test_delete_and_rebuild() {
    let mut engine = Harness::new(TEST_DIM);
    engine.add_document(1, vec![0.1, 0.1, 0.1]).unwrap();
    engine.add_document(2, vec![0.9, 0.9, 0.9]).unwrap();

    engine.delete_document(&2).unwrap();

    assert_eq!(engine.engine.document_count(), 1);
    assert!(engine.engine.documents().get(&2).is_none());

    let results_after_delete = engine.search(&vec![0.9, 0.9, 0.9], 1).unwrap();
    assert_eq!(results_after_delete[0].0, 1);
}

#[test]
fn test_update_document() {
    let mut engine = Harness::new(TEST_DIM);
    let id_to_update = 2;

    let other_vector = vec![-1.0, 0.0, 0.0];
    let old_vector = vec![0.0, 1.0, 0.0];
    let new_vector = vec![0.0, 0.0, 1.0];

    engine.add_document(1, other_vector).unwrap();
    engine.add_document(id_to_update, old_vector).unwrap();

    let update_result = engine.update_document(&id_to_update, new_vector.clone());
    assert!(update_result.is_ok());

    assert_eq!(engine.engine.documents().get(&id_to_update).unwrap(), &bits(&new_vector));

    let query_for_new_vector = vec![0.1, 0.1, 0.9];
    let search_result = engine.search(&query_for_new_vector, 1).unwrap();

    assert_eq!(search_result[0].0, id_to_update);
}

#[test]
fn test_round_trip_serialization() {
    let mut original_engine = VectorEngine::new(TEST_DIM);
    original_engine.add_document(1, bits(&[1.0, 0.1, 0.2])).unwrap();
    original_engine.add_document(2, bits(&[0.1, 1.0, 0.3])).unwrap();

    let bytes = original_engine.save_to_bytes().unwrap();
    let reloaded_engine = VectorEngine::load_from_bytes(&bytes, TEST_DIM).unwrap();

    assert_eq!(original_engine.dimension(), reloaded_engine.dimension());
    assert_eq!(original_engine.document_count(), reloaded_engine.document_count());
    assert_eq!(original_engine.documents(), reloaded_engine.documents());
}

#[test]
fn test_returns_item_not_found_error() {
    let mut engine = VectorEngine::new(TEST_DIM);
    let result = engine.delete_document(&99);
    assert!(matches!(result.unwrap_err(), VectorEngineError::ItemNotFound(_)));
}

#[test]
fn test_update_unknown_id_is_not_found() {
    let mut engine = VectorEngine::new(TEST_DIM);
    engine.add_document(1, bits(&[1.0, 0.0, 0.0])).unwrap();
    let err = engine.update_document(&99, bits(&[0.0, 0.0, 1.0])).unwrap_err();
    assert_eq!(err.kind(), ErrorKind::ItemNotFound);
    assert_eq!(err.message(), "ID 99 not found");
    assert_eq!(engine.document_count(), 1);
    assert_eq!(engine.documents().get(&1).unwrap(), &bits(&[1.0, 0.0, 0.0]));
}

#[test]
fn test_update_checks_dimension_before_id() {
    let mut engine = VectorEngine::new(TEST_DIM);
    let err = engine.update_document(&99, bits(&[0.0, 1.0])).unwrap_err();
    assert_eq!(err.kind(), ErrorKind::DimensionMismatch);
}

#[test]
fn test_search_dimension_mismatch_leaves_counters() {
    let mut engine = VectorEngine::new(TEST_DIM);
    let err = engine.begin_search(&bits(&[1.0, 2.0])).unwrap_err();
    assert!(matches!(err, VectorEngineError::DimensionMismatch(_)));
    let err = engine.search(&bits(&[1.0, 2.0]), 3, |_| panic!("the index is not asked")).unwrap_err();
    assert!(matches!(err, VectorEngineError::DimensionMismatch(_)));
    assert_eq!(engine.query_cache_stats().hits, 0);
    assert_eq!(engine.query_cache_stats().misses, 0);
}

#[test]
fn test_add_existing_id_overwrites() {
    let mut engine = VectorEngine::new(TEST_DIM);
    engine.add_document(7, bits(&[1.0, 0.0, 0.0])).unwrap();
    engine.add_document(7, bits(&[0.0, 1.0, 0.0])).unwrap();
    assert_eq!(engine.document_count(), 1);
    assert_eq!(engine.documents().get(&7).unwrap(), &bits(&[0.0, 1.0, 0.0]));
    let points = engine.index_points();
    assert_eq!(points.len(), 1);
    assert_eq!(points[0].id, 7);
    assert_eq!(points[0].vector, bits(&[0.0, 1.0, 0.0]));
}

#[test]
fn test_index_points_lists_every_document_once() {
    let mut engine = VectorEngine::new(2);
    for id in 0..20u64 {
        engine.add_document(id, vec![id as u32, (id * 2) as u32]).unwrap();
    }
    engine.delete_document(&5).unwrap();
    let mut points = engine.index_points();
    assert_eq!(points.len(), engine.document_count());
    assert_eq!(points.len(), 19);
    points.sort_by_key(|d| d.id);
    let ids: Vec<u64> = points.iter().map(|d| d.id).collect();
    let expected: Vec<u64> = (0..20u64).filter(|id| *id != 5).collect();
    assert_eq!(ids, expected);
    for d in points.iter() {
        assert_eq!(d.vector, vec![d.id as u32, (d.id * 2) as u32]);
    }
}

#[test]
fn test_complete_search_sorts_then_truncates() {
    let mut engine = VectorEngine::new(1);
    for id in 1..=4u64 {
        engine.add_document(id, bits(&[1.0])).unwrap();
    }
    let key = match engine.begin_search(&bits(&[1.0])).unwrap() {
        SearchStep::Miss { key } => key,
        SearchStep::Hit { .. } => panic!("nothing was cached"),
    };
    let candidates = vec![
        (1, 0.5f32.to_bits()),
        (2, 0.25f32.to_bits()),
        (3, 0.75f32.to_bits()),
        (4, 0.125f32.to_bits()),
    ];
    let results = engine.complete_search(key, candidates, 2);
    assert_eq!(results, vec![(4, 0.125f32.to_bits()), (2, 0.25f32.to_bits())]);
    assert_eq!(engine.query_cache_len(), 1);
    match engine.begin_search(&bits(&[1.0])).unwrap() {
        SearchStep::Hit { key: hit_key, results: cached } => {
            assert_eq!(hit_key, key);
            assert_eq!(cached, results);
        }
        SearchStep::Miss { .. } => panic!("the results were cached"),
    }
    assert_eq!(engine.query_cache_stats().hits, 1);
    assert_eq!(engine.query_cache_stats().misses, 1);
}

#[test]
fn test_complete_search_is_stable_and_drops_unknown_ids() {
    let mut engine = VectorEngine::new(1);
    for id in 1..=3u64 {
        engine.add_document(id, bits(&[1.0])).unwrap();
    }
    let candidates = vec![
        (3, 0.5f32.to_bits()),
        (99, 0.0f32.to_bits()),
        (1, 0.5f32.to_bits()),
        (2, 0.0f32.to_bits()),
    ];
    let results = engine.complete_search(11, candidates, 10);
    assert_eq!(
        results,
        vec![(2, 0.0f32.to_bits()), (3, 0.5f32.to_bits()), (1, 0.5f32.to_bits())]
    );
}

#[test]
fn test_complete_search_with_zero_k() {
    let mut engine = VectorEngine::new(1);
    engine.add_document(1, bits(&[1.0])).unwrap();
    let results = engine.complete_search(5, vec![(1, 0.5f32.to_bits())], 0);
    assert!(results.is_empty());
    assert_eq!(engine.query_cache_len(), 1);
}

#[test]
fn test_engine_cache_keeps_at_most_one_hundred_queries() {
    let mut engine = VectorEngine::new(1);
    engine.add_document(1, bits(&[1.0])).unwrap();
    for key in 0..101u64 {
        engine.complete_search(key, vec![(1, 0.5f32.to_bits())], 1);
    }
    assert_eq!(engine.query_cache_len(), 100);
}

#[test]
fn test_load_rejects_malformed_bytes() {
    let err = VectorEngine::load_from_bytes(&[0x08], TEST_DIM).err().unwrap();
    assert_eq!(err.kind(), ErrorKind::DeserializationError);
    let err = VectorEngine::load_from_bytes(&[0x08, 0x01, 0x12, 0x05, 0x08], TEST_DIM).err().unwrap();
    assert_eq!(err.kind(), ErrorKind::DeserializationError);
}

#[test]
fn test_load_rejects_other_versions() {
    assert!(VectorEngine::load_from_bytes(&[0x08, 0x01], TEST_DIM).is_ok());
    let err = VectorEngine::load_from_bytes(&[0x08, 0x02], TEST_DIM).err().unwrap();
    assert!(matches!(err, VectorEngineError::DeserializationError(_)));
    let err = VectorEngine::load_from_bytes(&[], TEST_DIM).err().unwrap();
    assert!(matches!(err, VectorEngineError::DeserializationError(_)));
}

#[test]
fn test_load_rejects_wrong_dimension() {
    let mut engine = VectorEngine::new(2);
    engine.add_document(1, bits(&[1.0, 2.0])).unwrap();
    let bytes = engine.save_to_bytes().unwrap();
    assert!(VectorEngine::load_from_bytes(&bytes, 2).is_ok());
    let err = VectorEngine::load_from_bytes(&bytes, 3).err().unwrap();
    assert_eq!(err.kind(), ErrorKind::DeserializationError);
}

#[test]
fn test_load_keeps_the_later_of_two_documents_with_one_id() {
    let bytes = vec![
        0x08, 0x01, 0x12, 0x08, 0x08, 0x07, 0x12, 0x04, 0x01, 0x00, 0x00, 0x00, 0x12, 0x08, 0x08,
        0x07, 0x12, 0x04, 0x02, 0x00, 0x00, 0x00,
    ];
    let engine = VectorEngine::load_from_bytes(&bytes, 1).unwrap();
    assert_eq!(engine.document_count(), 1);
    assert_eq!(engine.documents().get(&7).unwrap(), &vec![2u32]);
}

#[test]
fn test_round_trip_of_many_documents() {
    let mut engine = VectorEngine::new(4);
    for id in 0..50u64 {
        let v = vec![id as f32, -(id as f32), f32::NAN, 0.5 * id as f32];
        engine.add_document(id * 1_000_000_007, bits(&v)).unwrap();
    }
    let bytes = engine.save_to_bytes().unwrap();
    let loaded = VectorEngine::load_from_bytes(&bytes, 4).unwrap();
    assert_eq!(loaded.dimension(), 4);
    assert_eq!(loaded.document_count(), 50);
    assert_eq!(loaded.documents(), engine.documents());
    assert_eq!(loaded.query_cache_len(), 0);
}

#[test]
fn test_greeting() {
    assert_eq!(rust_vector_engine::greet(), "Hello, Jin!");
}

#[test]
fn test_search_asks_the_index_only_on_a_miss() {
    let mut engine = VectorEngine::new(1);
    engine.add_document(1, bits(&[1.0])).unwrap();
    engine.add_document(2, bits(&[2.0])).unwrap();
    let query = bits(&[1.0]);
    let first = engine
        .search(&query, 1, |k| {
            assert_eq!(k, 1);
            vec![(2, 0.75f32.to_bits()), (1, 0.25f32.to_bits()), (9, 0.0f32.to_bits())]
        })
        .unwrap();
    assert_eq!(first, vec![(1, 0.25f32.to_bits())]);
    assert_eq!(engine.query_cache_stats().misses, 1);
    let second = engine.search(&query, 1, |_| panic!("the query is cached")).unwrap();
    assert_eq!(second, first);
    assert_eq!(engine.query_cache_stats().hits, 1);
    assert_eq!(engine.query_cache_len(), 1);
}

#[test]
fn test_cached_results_are_returned_whatever_top_k() {
    let mut engine = VectorEngine::new(1);
    engine.add_document(1, bits(&[1.0])).unwrap();
    engine.add_document(2, bits(&[2.0])).unwrap();
    let query = bits(&[1.0]);
    let both = vec![(1, 0.25f32.to_bits()), (2, 0.75f32.to_bits())];
    let wide = engine.search(&query, 2, |_| vec![(2, 0.75f32.to_bits()), (1, 0.25f32.to_bits())]);
    assert_eq!(wide.unwrap(), both);
    let narrow = engine.search(&query, 1, |_| Vec::new());
    assert_eq!(narrow.unwrap(), both);
}
